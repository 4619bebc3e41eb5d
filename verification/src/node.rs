//! Expression trees and their structural operations.
//!
//! Every node of a tree has an index: its position in a pre-order walk, in
//! which the root comes first, then the nodes of the left subtree, then those
//! of the right one. The operations of this module address nodes by it.

use vstd::prelude::*;
use vstd::arithmetic::power2::{lemma2_to64, lemma_pow2_strictly_increases, lemma_pow2_unfold, pow2};
use rand::rngs::StdRng;
use crate::number::Real;
use crate::random::{draw_below, draw_unit};

verus! {

/// An arithmetic expression in one variable.
#[derive(Debug, PartialEq, Eq)]
pub enum Node {
    /// A constant.
    Constant(Real),
    /// The free variable.
    Var,
    /// The sum of two expressions.
    Plus(Box<Node>, Box<Node>),
    /// The difference of two expressions.
    Minus(Box<Node>, Box<Node>),
    /// The product of two expressions.
    Mult(Box<Node>, Box<Node>),
    /// The quotient of two expressions.
    Div(Box<Node>, Box<Node>),
}

impl Node {
    /// Whether the node is a constant or the variable.
    pub open spec fn is_leaf(self) -> bool {
        self is Constant || self is Var
    }

    /// The left operand of an operator node.
    pub open spec fn left(self) -> Node {
        match self {
            Node::Plus(l, _) | Node::Minus(l, _) | Node::Mult(l, _) | Node::Div(l, _) => *l,
            _ => self,
        }
    }

    /// The right operand of an operator node.
    pub open spec fn right(self) -> Node {
        match self {
            Node::Plus(_, r) | Node::Minus(_, r) | Node::Mult(_, r) | Node::Div(_, r) => *r,
            _ => self,
        }
    }

    /// The operator node with the operator of `self` and the given operands.
    pub open spec fn with_operands(self, l: Node, r: Node) -> Node {
        match self {
            Node::Plus(_, _) => Node::Plus(Box::new(l), Box::new(r)),
            Node::Minus(_, _) => Node::Minus(Box::new(l), Box::new(r)),
            Node::Mult(_, _) => Node::Mult(Box::new(l), Box::new(r)),
            Node::Div(_, _) => Node::Div(Box::new(l), Box::new(r)),
            _ => self,
        }
    }

    /// The number of nodes of the tree.
    pub open spec fn size(self) -> nat
        decreases self,
    {
        match self {
            Node::Constant(_) | Node::Var => 1,
            Node::Plus(l, r) | Node::Minus(l, r) | Node::Mult(l, r) | Node::Div(l, r) => 1
                + l.size() + r.size(),
        }
    }

    /// The length of the longest path from the root down to a leaf.
    pub open spec fn height(self) -> nat
        decreases self,
    {
        match self {
            Node::Constant(_) | Node::Var => 0,
            Node::Plus(l, r) | Node::Minus(l, r) | Node::Mult(l, r) | Node::Div(l, r) => {
                if l.height() >= r.height() {
                    1 + l.height()
                } else {
                    1 + r.height()
                }
            },
        }
    }

    /// The subtrees of the tree in pre-order.
    pub open spec fn preorder(self) -> Seq<Node>
        decreases self,
    {
        match self {
            Node::Constant(_) | Node::Var => seq![self],
            Node::Plus(l, r) | Node::Minus(l, r) | Node::Mult(l, r) | Node::Div(l, r) => seq![
                self,
            ] + l.preorder() + r.preorder(),
        }
    }

    /// The subtree rooted at the node with index `i`.
    pub open spec fn subtree_at(self, i: nat) -> Node
        decreases self,
    {
        match self {
            Node::Constant(_) | Node::Var => self,
            Node::Plus(l, r) | Node::Minus(l, r) | Node::Mult(l, r) | Node::Div(l, r) => {
                if i == 0 {
                    self
                } else if i <= l.size() {
                    l.subtree_at((i - 1) as nat)
                } else {
                    r.subtree_at((i - 1 - l.size()) as nat)
                }
            },
        }
    }

    /// The depth of the node with index `i`; the root has depth 0.
    pub open spec fn depth_at(self, i: nat) -> nat
        decreases self,
    {
        match self {
            Node::Constant(_) | Node::Var => 0,
            Node::Plus(l, r) | Node::Minus(l, r) | Node::Mult(l, r) | Node::Div(l, r) => {
                if i == 0 {
                    0
                } else if i <= l.size() {
                    1 + l.depth_at((i - 1) as nat)
                } else {
                    1 + r.depth_at((i - 1 - l.size()) as nat)
                }
            },
        }
    }

    /// The tree with the subtree at index `i` exchanged for `new_node`. An
    /// index that the tree does not have leaves it as it is.
    pub open spec fn replaced(self, i: nat, new_node: Node) -> Node
        decreases self,
    {
        if i == 0 {
            new_node
        } else {
            match self {
                Node::Constant(_) | Node::Var => self,
                Node::Plus(l, r) | Node::Minus(l, r) | Node::Mult(l, r) | Node::Div(l, r) => {
                    if i <= l.size() {
                        self.with_operands(l.replaced((i - 1) as nat, new_node), *r)
                    } else {
                        self.with_operands(
                            *l,
                            r.replaced((i - 1 - l.size()) as nat, new_node),
                        )
                    }
                },
            }
        }
    }

    /// Whether the node is a leaf that a random draw can give: the variable,
    /// or a constant of the unit interval.
    pub open spec fn is_random_leaf(self) -> bool {
        match self {
            Node::Var => true,
            Node::Constant(c) => c.in_unit_interval(),
            _ => false,
        }
    }

    /// Whether `out` is a truncation of the tree to the depth budget
    /// `budget`: the tree itself down to depth `budget`, with a random leaf
    /// in the place of each operator node at that depth. A negative budget is
    /// never used up, so it leaves the whole tree.
    pub open spec fn truncates_to(self, budget: int, out: Node) -> bool
        decreases self,
    {
        match self {
            Node::Constant(_) | Node::Var => out == self,
            Node::Plus(l, r) | Node::Minus(l, r) | Node::Mult(l, r) | Node::Div(l, r) => {
                if budget == 0 {
                    out.is_random_leaf()
                } else {
                    &&& out == self.with_operands(out.left(), out.right())
                    &&& l.truncates_to(budget - 1, out.left())
                    &&& r.truncates_to(budget - 1, out.right())
                }
            },
        }
    }

    /// Whether random generation with the depth budget `budget` can give the
    /// tree: operator nodes stand only where the budget left is above 1, and
    /// every constant lies in the unit interval.
    pub open spec fn grown_within(self, budget: int) -> bool
        decreases self,
    {
        match self {
            Node::Constant(_) | Node::Var => self.is_random_leaf(),
            Node::Plus(l, r) | Node::Minus(l, r) | Node::Mult(l, r) | Node::Div(l, r) => {
                &&& budget > 1
                &&& l.grown_within(budget - 1)
                &&& r.grown_within(budget - 1)
            },
        }
    }

    /// A copy of the tree that shares nothing with it.
    pub fn copy(&self) -> (r: Node)
        ensures
            r == *self,
        decreases *self,
    {
        match self {
            Node::Constant(c) => Node::Constant(*c),
            Node::Var => Node::Var,
            Node::Plus(lhs, rhs) => Node::Plus(Box::new(lhs.copy()), Box::new(rhs.copy())),
            Node::Minus(lhs, rhs) => Node::Minus(Box::new(lhs.copy()), Box::new(rhs.copy())),
            Node::Mult(lhs, rhs) => Node::Mult(Box::new(lhs.copy()), Box::new(rhs.copy())),
            Node::Div(lhs, rhs) => Node::Div(Box::new(lhs.copy()), Box::new(rhs.copy())),
        }
    }

    /// The number of nodes of the tree: as many as a pre-order walk visits.
    pub fn count(&self) -> (n: u64)
        requires
            self.size() <= u64::MAX,
        ensures
            n == self.size(),
            n == self.preorder().len(),
        decreases *self,
    {
        proof {
            lemma_preorder_indexing(*self);
        }
        match self {
            Node::Constant(_) => 1,
            Node::Var => 1,
            Node::Plus(lhs, rhs)
            | Node::Minus(lhs, rhs)
            | Node::Mult(lhs, rhs)
            | Node::Div(lhs, rhs) => 1 + lhs.count() + rhs.count(),
        }
    }

    /// Walks the tree in pre-order towards the node with index `i`. Returns
    /// that node's subtree, or else what is left of `i` after the whole tree
    /// has been passed.
    fn seek(&self, i: u64) -> (r: (u64, Option<&Node>))
        ensures
            i < self.size() ==> r.1 == Some(&self.subtree_at(i as nat)),
            i >= self.size() ==> r.1 is None && r.0 == i - self.size(),
        decreases *self,
    {
        if i == 0 {
            return (0, Some(self));
        }
        match self {
            Node::Constant(_) => (i - 1, None),
            Node::Var => (i - 1, None),
            Node::Plus(lhs, rhs)
            | Node::Minus(lhs, rhs)
            | Node::Mult(lhs, rhs)
            | Node::Div(lhs, rhs) => {
                let res = lhs.seek(i - 1);
                match res.1 {
                    Some(_) => res,
                    None => rhs.seek(res.0),
                }
            },
        }
    }

    /// The subtree rooted at the node with index `i`: the one that a
    /// pre-order walk visits after `i` others. Index 0 gives the tree itself.
    pub fn get_node(&self, i: u64) -> (r: &Node)
        requires
            i < self.size(),
        ensures
            *r == self.subtree_at(i as nat),
            *r == self.preorder()[i as int],
            i == 0 ==> *r == *self,
    {
        proof {
            lemma_preorder_indexing(*self);
        }
        match self.seek(i).1 {
            Some(found) => found,
            None => self,
        }
    }

    /// Walks the tree in pre-order towards the node with index `i`, counting
    /// the descents from `depth`. Returns the depth reached at that node, or
    /// else what is left of `i` after the whole tree has been passed.
    fn seek_depth(&self, i: u64, depth: u64) -> (r: (u64, Option<u64>))
        requires
            depth + i <= u64::MAX,
        ensures
            i < self.size() ==> r.1 == Some((depth + self.depth_at(i as nat)) as u64),
            i < self.size() ==> depth + self.depth_at(i as nat) <= depth + i,
            i >= self.size() ==> r.1 is None && r.0 == i - self.size(),
        decreases *self,
    {
        if i == 0 {
            return (0, Some(depth));
        }
        match self {
            Node::Constant(_) => (i - 1, None),
            Node::Var => (i - 1, None),
            Node::Plus(lhs, rhs)
            | Node::Minus(lhs, rhs)
            | Node::Mult(lhs, rhs)
            | Node::Div(lhs, rhs) => {
                let pair = lhs.seek_depth(i - 1, depth + 1);
                match pair.1 {
                    Some(_) => pair,
                    None => rhs.seek_depth(pair.0, depth + 1),
                }
            },
        }
    }

    /// The depth of the node with index `i`; the root has depth 0.
    pub fn depth_at_node(&self, i: u64) -> (depth: u64)
        requires
            i < self.size(),
        ensures
            depth == self.depth_at(i as nat),
    {
        match self.seek_depth(i, 0).1 {
            Some(depth) => depth,
            None => 0,
        }
    }

    /// Rebuilds the tree in pre-order towards the node with index `i` and
    /// puts a copy of `new_node` in its place. Returns the new tree and,
    /// where the tree has no such node, what is left of `i` after it.
    fn splice(&self, i: u64, new_node: &Node) -> (r: (Option<u64>, Node))
        ensures
            i < self.size() ==> r.0 is None && r.1 == self.replaced(i as nat, *new_node),
            i >= self.size() ==> r.0 == Some((i - self.size()) as u64) && r.1 == *self,
        decreases *self,
    {
        if i == 0 {
            return (None, new_node.copy());
        }
        match self {
            Node::Constant(c) => (Some(i - 1), Node::Constant(*c)),
            Node::Var => (Some(i - 1), Node::Var),
            Node::Plus(lhs, rhs) => {
                let res = lhs.splice(i - 1, new_node);
                let res2 = match res.0 {
                    Some(rest) => rhs.splice(rest, new_node),
                    None => (None, rhs.copy()),
                };
                (res2.0, Node::Plus(Box::new(res.1), Box::new(res2.1)))
            },
            Node::Minus(lhs, rhs) => {
                let res = lhs.splice(i - 1, new_node);
                let res2 = match res.0 {
                    Some(rest) => rhs.splice(rest, new_node),
                    None => (None, rhs.copy()),
                };
                (res2.0, Node::Minus(Box::new(res.1), Box::new(res2.1)))
            },
            Node::Mult(lhs, rhs) => {
                let res = lhs.splice(i - 1, new_node);
                let res2 = match res.0 {
                    Some(rest) => rhs.splice(rest, new_node),
                    None => (None, rhs.copy()),
                };
                (res2.0, Node::Mult(Box::new(res.1), Box::new(res2.1)))
            },
            Node::Div(lhs, rhs) => {
                let res = lhs.splice(i - 1, new_node);
                let res2 = match res.0 {
                    Some(rest) => rhs.splice(rest, new_node),
                    None => (None, rhs.copy()),
                };
                (res2.0, Node::Div(Box::new(res.1), Box::new(res2.1)))
            },
        }
    }

    /// A new tree like this one, but with a copy of `new_node` in the place
    /// of the subtree at index `i`. The receiver is left as it was.
    pub fn replace_node(&self, i: u64, new_node: &Node) -> (r: Node)
        requires
            i < self.size(),
        ensures
            r == self.replaced(i as nat, *new_node),
    {
        self.splice(i, new_node).1
    }

    /// A copy of the tree cut down to the depth budget `curr_depth`. Leaves
    /// stay; an operator node that the budget no longer allows gives way to a
    /// fresh random leaf, and its subtree is dropped. A negative budget cuts
    /// nothing.
    pub fn trim(&self, curr_depth: i32, rng: &mut StdRng) -> (r: Node)
        ensures
            self.truncates_to(curr_depth as int, r),
            r.height() <= self.height(),
            curr_depth >= 0 ==> r.height() <= curr_depth,
            curr_depth == 0 ==> r.is_leaf(),
            self.is_leaf() ==> r == *self,
            curr_depth < 0 || self.height() <= curr_depth ==> r == *self,
        decreases *self,
    {
        if curr_depth < 0 {
            proof {
                lemma_negative_budget_keeps(*self, curr_depth as int);
            }
            return self.copy();
        }
        let r = if curr_depth == 0 {
            match self {
                Node::Constant(c) => Node::Constant(*c),
                Node::Var => Node::Var,
                _ => random_node(0, rng),
            }
        } else {
            match self {
                Node::Constant(c) => Node::Constant(*c),
                Node::Var => Node::Var,
                Node::Plus(lhs, rhs) => {
                    let lhs_node = lhs.trim(curr_depth - 1, rng);
                    let rhs_node = rhs.trim(curr_depth - 1, rng);
                    Node::Plus(Box::new(lhs_node), Box::new(rhs_node))
                },
                Node::Minus(lhs, rhs) => {
                    let lhs_node = lhs.trim(curr_depth - 1, rng);
                    let rhs_node = rhs.trim(curr_depth - 1, rng);
                    Node::Minus(Box::new(lhs_node), Box::new(rhs_node))
                },
                Node::Mult(lhs, rhs) => {
                    let lhs_node = lhs.trim(curr_depth - 1, rng);
                    let rhs_node = rhs.trim(curr_depth - 1, rng);
                    Node::Mult(Box::new(lhs_node), Box::new(rhs_node))
                },
                Node::Div(lhs, rhs) => {
                    let lhs_node = lhs.trim(curr_depth - 1, rng);
                    let rhs_node = rhs.trim(curr_depth - 1, rng);
                    Node::Div(Box::new(lhs_node), Box::new(rhs_node))
                },
            }
        };
        proof {
            lemma_truncation_height(*self, curr_depth as int, r);
            if self.height() <= curr_depth {
                lemma_roomy_budget_only_keeps(*self, curr_depth as int, r);
            }
        }
        r
    }
}

/// The leaf that the leaf draw `leaf_node` asks for: for 0 a constant, whose
/// value is then drawn from the unit interval, and for every other draw the
/// variable.
pub fn leaf_for(leaf_node: u64, rng: &mut StdRng) -> (r: Node)
    ensures
        r.is_random_leaf(),
        leaf_node == 0 <==> r is Constant,
        leaf_node != 0 <==> r == Node::Var,
{
    if leaf_node == 0 {
        Node::Constant(draw_unit(rng))
    } else {
        Node::Var
    }
}

/// The tree that the node draw `node_index` asks for under the depth budget
/// `curr_depth`: for 0 a constant, for 1 the variable, and for 2, 3, 4 and
/// every larger draw a sum, a difference, a product and a quotient of two
/// random trees for a budget one smaller, the left one made first.
pub fn node_for(node_index: u64, curr_depth: i32, rng: &mut StdRng) -> (r: Node)
    requires
        curr_depth > 1,
    ensures
        r.grown_within(curr_depth as int),
        node_index == 0 <==> r is Constant,
        node_index == 1 <==> r is Var,
        node_index == 2 <==> r is Plus,
        node_index == 3 <==> r is Minus,
        node_index == 4 <==> r is Mult,
        node_index >= 5 <==> r is Div,
    decreases curr_depth, 0nat,
{
    match node_index {
        0 => {
            let new_c = draw_unit(rng);
            Node::Constant(new_c)
        },
        1 => Node::Var,
        2 => {
            let lhs = random_node(curr_depth - 1, rng);
            let rhs = random_node(curr_depth - 1, rng);
            Node::Plus(Box::new(lhs), Box::new(rhs))
        },
        3 => {
            let lhs = random_node(curr_depth - 1, rng);
            let rhs = random_node(curr_depth - 1, rng);
            Node::Minus(Box::new(lhs), Box::new(rhs))
        },
        4 => {
            let lhs = random_node(curr_depth - 1, rng);
            let rhs = random_node(curr_depth - 1, rng);
            Node::Mult(Box::new(lhs), Box::new(rhs))
        },
        _ => {
            let lhs = random_node(curr_depth - 1, rng);
            let rhs = random_node(curr_depth - 1, rng);
            Node::Div(Box::new(lhs), Box::new(rhs))
        },
    }
}

/// A random tree for the depth budget `curr_depth`. With a budget of at most 1
/// it is a leaf: a constant of the unit interval or the variable, each with
/// the same chance. With a larger budget it is, with the same chance each, a
/// constant, the variable, or one of the four operators over two random trees
/// for a budget one smaller.
pub fn random_node(curr_depth: i32, rng: &mut StdRng) -> (r: Node)
    ensures
        r.grown_within(curr_depth as int),
        curr_depth <= 1 ==> r.is_random_leaf(),
        curr_depth >= 0 ==> r.height() <= curr_depth,
    decreases curr_depth, 1nat,
{
    let r = if curr_depth <= 1 {
        let leaf_node: u64 = draw_below(rng, 2);
        leaf_for(leaf_node, rng)
    } else {
        let node_index: u64 = draw_below(rng, 6);
        node_for(node_index, curr_depth, rng)
    };
    proof {
        lemma_grown_height(r, curr_depth as int);
    }
    r
}

/// A negative depth budget is never used up: the tree is its own truncation.
pub proof fn lemma_negative_budget_keeps(tree: Node, budget: int)
    requires
        budget < 0,
    ensures
        tree.truncates_to(budget, tree),
    decreases tree,
{
    if !tree.is_leaf() {
        lemma_negative_budget_keeps(tree.left(), budget - 1);
        lemma_negative_budget_keeps(tree.right(), budget - 1);
    }
}

/// With a negative depth budget the tree is its only truncation.
pub proof fn lemma_negative_budget_only_keeps(tree: Node, budget: int, out: Node)
    requires
        budget < 0,
        tree.truncates_to(budget, out),
    ensures
        out == tree,
    decreases tree,
{
    if !tree.is_leaf() {
        lemma_negative_budget_only_keeps(tree.left(), budget - 1, out.left());
        lemma_negative_budget_only_keeps(tree.right(), budget - 1, out.right());
    }
}

/// With a depth budget that the tree does not use up, the tree is its only
/// truncation.
pub proof fn lemma_roomy_budget_only_keeps(tree: Node, budget: int, out: Node)
    requires
        tree.height() <= budget,
        tree.truncates_to(budget, out),
    ensures
        out == tree,
    decreases tree,
{
    if !tree.is_leaf() {
        lemma_roomy_budget_only_keeps(tree.left(), budget - 1, out.left());
        lemma_roomy_budget_only_keeps(tree.right(), budget - 1, out.right());
    }
}

/// A truncation is never higher than the tree it was made from, and with a
/// budget that is not negative it is no higher than the budget.
pub proof fn lemma_truncation_height(tree: Node, budget: int, out: Node)
    requires
        tree.truncates_to(budget, out),
    ensures
        out.height() <= tree.height(),
        budget >= 0 ==> out.height() <= budget,
    decreases tree,
{
    if !tree.is_leaf() && budget != 0 {
        lemma_truncation_height(tree.left(), budget - 1, out.left());
        lemma_truncation_height(tree.right(), budget - 1, out.right());
    }
}

/// A tree grown within a depth budget is a leaf where the budget is at most
/// 1, and otherwise lower than the budget.
pub proof fn lemma_grown_height(tree: Node, budget: int)
    requires
        tree.grown_within(budget),
    ensures
        tree.height() == 0 || tree.height() < budget,
    decreases tree,
{
    if !tree.is_leaf() {
        lemma_grown_height(tree.left(), budget - 1);
        lemma_grown_height(tree.right(), budget - 1);
    }
}

/// The pre-order walk visits every node once: it is as long as the tree has
/// nodes, it starts with the tree itself, and its entry at each index is the
/// subtree that the tree has at that index.
pub proof fn lemma_preorder_indexing(tree: Node)
    ensures
        tree.preorder().len() == tree.size(),
        tree.preorder()[0] == tree,
        tree.subtree_at(0) == tree,
        forall|i: nat| i < tree.size() ==> tree.preorder()[i as int] == #[trigger] tree.subtree_at(i),
    decreases tree,
{
    if !tree.is_leaf() {
        let l = tree.left();
        let r = tree.right();
        lemma_preorder_indexing(l);
        lemma_preorder_indexing(r);
        assert(tree.preorder() == seq![tree] + l.preorder() + r.preorder());
        let head = seq![tree] + l.preorder();
        assert(tree.preorder() == head + r.preorder());
        assert forall|i: nat| i < tree.size() implies tree.preorder()[i as int]
            == #[trigger] tree.subtree_at(i) by {
            if i == 0 {
                assert(head[0] == tree);
            } else if i <= l.size() {
                assert(head[i as int] == l.preorder()[i - 1]);
                assert(l.preorder()[i - 1] == l.subtree_at((i - 1) as nat));
            } else {
                let j = (i - 1 - l.size()) as nat;
                assert(tree.preorder()[i as int] == r.preorder()[j as int]);
                assert(r.preorder()[j as int] == r.subtree_at(j));
            }
        }
        assert(head[0] == tree);
    }
}

/// A tree has at least one node, and fewer than two to the power of its
/// height plus one.
pub proof fn lemma_size_bound(tree: Node)
    ensures
        1 <= tree.size() < pow2(tree.height() + 1),
    decreases tree,
{
    lemma_pow2_unfold(tree.height() + 1);
    if tree.is_leaf() {
        lemma2_to64();
    } else {
        let l = tree.left();
        let r = tree.right();
        lemma_size_bound(l);
        lemma_size_bound(r);
        if l.height() + 1 < tree.height() {
            lemma_pow2_strictly_increases(l.height() + 1, tree.height());
        }
        if r.height() + 1 < tree.height() {
            lemma_pow2_strictly_increases(r.height() + 1, tree.height());
        }
    }
}

/// A node lies no deeper than the tree is high, and its subtree fits into
/// what is left of the height below it.
pub proof fn lemma_depth_within_height(tree: Node, i: nat)
    requires
        i < tree.size(),
    ensures
        tree.depth_at(i) + tree.subtree_at(i).height() <= tree.height(),
    decreases tree,
{
    if !tree.is_leaf() && i != 0 {
        if i <= tree.left().size() {
            lemma_depth_within_height(tree.left(), (i - 1) as nat);
        } else {
            lemma_depth_within_height(tree.right(), (i - 1 - tree.left().size()) as nat);
        }
    }
}

/// The subtree at an index takes up the indices from that one on, as many as
/// it has nodes, and they all lie within the tree.
pub proof fn lemma_subtree_extent(tree: Node, i: nat)
    requires
        i < tree.size(),
    ensures
        i + tree.subtree_at(i).size() <= tree.size(),
    decreases tree,
{
    if !tree.is_leaf() && i != 0 {
        if i <= tree.left().size() {
            lemma_subtree_extent(tree.left(), (i - 1) as nat);
        } else {
            lemma_subtree_extent(tree.right(), (i - 1 - tree.left().size()) as nat);
        }
    }
}

/// After a replacement the new subtree stands at the index it was put at,
/// at the depth of the old one, and the tree has lost the nodes of the old
/// subtree and gained those of the new one.
pub proof fn lemma_replaced_subtree(tree: Node, i: nat, new_node: Node)
    requires
        i < tree.size(),
    ensures
        i < tree.replaced(i, new_node).size(),
        tree.replaced(i, new_node).subtree_at(i) == new_node,
        tree.replaced(i, new_node).depth_at(i) == tree.depth_at(i),
        tree.replaced(i, new_node).size() + tree.subtree_at(i).size() == tree.size()
            + new_node.size(),
    decreases tree,
{
    lemma_size_bound(new_node);
    lemma_subtree_extent(tree, i);
    if i == 0 {
        lemma_preorder_indexing(new_node);
    } else {
        let l = tree.left();
        let r = tree.right();
        let out = tree.replaced(i, new_node);
        if i <= l.size() {
            lemma_replaced_subtree(l, (i - 1) as nat, new_node);
            assert(out.left() == l.replaced((i - 1) as nat, new_node));
            assert(out.right() == r);
        } else {
            lemma_replaced_subtree(r, (i - 1 - l.size()) as nat, new_node);
            assert(out.left() == l);
            assert(out.right() == r.replaced((i - 1 - l.size()) as nat, new_node));
        }
    }
}

/// A replacement at an index that the tree does not have changes nothing.
pub proof fn lemma_replaced_beyond(tree: Node, i: nat, new_node: Node)
    requires
        i >= tree.size(),
    ensures
        tree.replaced(i, new_node) == tree,
    decreases tree,
{
    lemma_size_bound(tree);
    if !tree.is_leaf() {
        lemma_replaced_beyond(tree.left(), (i - 1) as nat, new_node);
        lemma_replaced_beyond(tree.right(), (i - 1 - tree.left().size()) as nat, new_node);
    }
}

/// After a replacement at index `i`, what stands at an earlier index `j` is
/// what stood there before, with the same replacement made in it where it
/// holds the replaced node, that is at its own index `i - j`.
pub proof fn lemma_replaced_before(tree: Node, i: nat, j: nat, new_node: Node)
    requires
        j < i < tree.size(),
    ensures
        tree.replaced(i, new_node).subtree_at(j) == tree.subtree_at(j).replaced(
            (i - j) as nat,
            new_node,
        ),
    decreases tree,
{
    if j != 0 {
        let l = tree.left();
        let r = tree.right();
        let out = tree.replaced(i, new_node);
        if i <= l.size() {
            lemma_replaced_subtree(l, (i - 1) as nat, new_node);
            assert(out.left() == l.replaced((i - 1) as nat, new_node));
            lemma_replaced_before(l, (i - 1) as nat, (j - 1) as nat, new_node);
        } else if j <= l.size() {
            assert(out.left() == l);
            lemma_subtree_extent(l, (j - 1) as nat);
            lemma_replaced_beyond(l.subtree_at((j - 1) as nat), (i - j) as nat, new_node);
        } else {
            assert(out.left() == l);
            assert(out.right() == r.replaced((i - 1 - l.size()) as nat, new_node));
            lemma_replaced_before(
                r,
                (i - 1 - l.size()) as nat,
                (j - 1 - l.size()) as nat,
                new_node,
            );
        }
    }
}

/// After a replacement at index `i`, every subtree that came after the
/// replaced one in pre-order is still there, unchanged, at an index that
/// differs by as much as the new subtree is larger than the old one.
pub proof fn lemma_replaced_after(tree: Node, i: nat, j: nat, new_node: Node)
    requires
        i < tree.size(),
        i + tree.subtree_at(i).size() <= j < tree.size(),
    ensures
        tree.replaced(i, new_node).subtree_at(
            (j + new_node.size() - tree.subtree_at(i).size()) as nat,
        ) == tree.subtree_at(j),
    decreases tree,
{
    lemma_size_bound(new_node);
    if i != 0 {
        let l = tree.left();
        let r = tree.right();
        let out = tree.replaced(i, new_node);
        if i <= l.size() {
            lemma_replaced_subtree(l, (i - 1) as nat, new_node);
            assert(out.left() == l.replaced((i - 1) as nat, new_node));
            assert(out.right() == r);
            if j <= l.size() {
                lemma_replaced_after(l, (i - 1) as nat, (j - 1) as nat, new_node);
            }
        } else {
            assert(out.left() == l);
            assert(out.right() == r.replaced((i - 1 - l.size()) as nat, new_node));
            lemma_replaced_after(
                r,
                (i - 1 - l.size()) as nat,
                (j - 1 - l.size()) as nat,
                new_node,
            );
        }
    }
}

/// A replacement raises the tree at most to the depth of the replaced node
/// plus the height of the new subtree.
pub proof fn lemma_replaced_height(tree: Node, i: nat, new_node: Node)
    requires
        i < tree.size(),
    ensures
        tree.replaced(i, new_node).height() <= tree.height() || tree.replaced(
            i,
            new_node,
        ).height() <= tree.depth_at(i) + new_node.height(),
    decreases tree,
{
    if i != 0 {
        if i <= tree.left().size() {
            lemma_replaced_height(tree.left(), (i - 1) as nat, new_node);
        } else {
            lemma_replaced_height(tree.right(), (i - 1 - tree.left().size()) as nat, new_node);
        }
    }
}

impl Clone for Node {
    fn clone(&self) -> (r: Node)
        ensures
            r == *self,
    {
        self.copy()
    }
}

} // verus!
