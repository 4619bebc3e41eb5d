//! Individuals: a tree with its fitness, and the genetic operators that make
//! new individuals from old ones.
//!
//! The fitness of a tree is what the caller's scoring function returns for
//! it. The operators build the new tree, have it scored, and leave their
//! operands as they were.

use vstd::prelude::*;
use rand::rngs::StdRng;
use crate::number::Real;
use crate::node::{
    lemma_depth_within_height, lemma_grown_height, lemma_negative_budget_keeps,
    lemma_negative_budget_only_keeps, lemma_replaced_height, lemma_size_bound,
    lemma_truncation_height, random_node, Node,
};
use crate::random::draw_below;

verus! {

/// A candidate solution: a tree and the fitness it was scored with.
#[derive(Debug, PartialEq, Eq)]
pub struct Ind {
    pub tree: Node,
    pub fitness: Real,
}

/// Whether the fitness of the individual is one that `score` can return for
/// its tree.
pub open spec fn scored<F: Fn(&Node) -> Real>(score: F, ind: Ind) -> bool {
    call_ensures(score, (&ind.tree,), ind.fitness)
}

/// The depth budget left below a node at depth `depth` of a tree that may
/// reach down to `max_depth`. Budgets below -1 are given as -1.
pub fn budget_below(max_depth: i32, depth: u64) -> (budget: i32)
    ensures
        max_depth - depth >= -1 ==> budget == max_depth - depth,
        max_depth - depth < -1 ==> budget == -1,
{
    if depth > 0x7fff_ffff {
        -1
    } else {
        let left: i64 = max_depth as i64 - depth as i64;
        if left < -1 {
            -1
        } else {
            left as i32
        }
    }
}

impl Ind {
    /// Whether `child_tree` can come of a crossover that takes the subtree at
    /// `p_point` of the provider and puts it, truncated to the depth budget
    /// left there, in the place of the subtree at `r_point` of `self`.
    pub open spec fn crossed_at(
        self,
        provider: Ind,
        p_point: nat,
        r_point: nat,
        max_depth: int,
        child_tree: Node,
    ) -> bool {
        exists|graft: Node|
            {
                &&& #[trigger] provider.tree.subtree_at(p_point).truncates_to(
                    max_depth - self.tree.depth_at(r_point),
                    graft,
                )
                &&& child_tree == self.tree.replaced(r_point, graft)
            }
    }

    /// Whether `child_tree` can come of a crossover of `self` with the
    /// provider: of one at some point of each.
    pub open spec fn crossed_with(self, provider: Ind, max_depth: int, child_tree: Node) -> bool {
        exists|p_point: nat, r_point: nat|
            {
                &&& p_point < provider.tree.size()
                &&& r_point < self.tree.size()
                &&& #[trigger] self.crossed_at(provider, p_point, r_point, max_depth, child_tree)
            }
    }

    /// Whether `child_tree` can come of a mutation of `self` at `n_point`:
    /// the subtree there gives way to a tree grown within the depth budget
    /// left at its depth.
    pub open spec fn mutated_at(self, n_point: nat, max_depth: int, child_tree: Node) -> bool {
        exists|graft: Node|
            {
                &&& #[trigger] graft.grown_within(max_depth - self.tree.depth_at(n_point))
                &&& child_tree == self.tree.replaced(n_point, graft)
            }
    }

    /// Whether `child_tree` can come of a mutation of `self` at some point.
    pub open spec fn mutated(self, max_depth: int, child_tree: Node) -> bool {
        exists|n_point: nat|
            n_point < self.tree.size() && #[trigger] self.mutated_at(
                n_point,
                max_depth,
                child_tree,
            )
    }

    /// The crossover at two given points. The subtree of the provider at
    /// `p_point` is truncated to the depth budget that `max_depth` leaves at
    /// the depth of `r_point`, and replaces the subtree of `self` there.
    pub fn crossover_at<F: Fn(&Node) -> Real>(
        &self,
        provider: &Ind,
        p_point: u64,
        r_point: u64,
        max_depth: i32,
        score: &F,
        rng: &mut StdRng,
    ) -> (child: Ind)
        requires
            p_point < provider.tree.size(),
            r_point < self.tree.size(),
            forall|t: Node| call_requires(*score, (&t,)),
        ensures
            self.crossed_at(
                *provider,
                p_point as nat,
                r_point as nat,
                max_depth as int,
                child.tree,
            ),
            scored(*score, child),
            self.tree.height() <= max_depth ==> child.tree.height() <= max_depth,
            child.tree.height() <= self.tree.height() + provider.tree.height(),
    {
        let p_tree = provider.tree.get_node(p_point);
        let r_point_depth = self.tree.depth_at_node(r_point);
        let budget = budget_below(max_depth, r_point_depth);
        let p_trimmed_tree = p_tree.trim(budget, rng);
        let new_tree = self.tree.replace_node(r_point, &p_trimmed_tree);
        proof {
            let exact = max_depth - r_point_depth;
            if exact < -1 {
                lemma_negative_budget_only_keeps(*p_tree, budget as int, p_trimmed_tree);
                lemma_negative_budget_keeps(*p_tree, exact);
            }
            assert(p_tree.truncates_to(exact, p_trimmed_tree));
            lemma_depth_within_height(self.tree, r_point as nat);
            lemma_depth_within_height(provider.tree, p_point as nat);
            lemma_truncation_height(*p_tree, exact, p_trimmed_tree);
            lemma_replaced_height(self.tree, r_point as nat, p_trimmed_tree);
        }
        let fitness = score(&new_tree);
        Ind { tree: new_tree, fitness }
    }

    /// A new individual from a crossover at a random point of each parent,
    /// each node of a tree being as likely as any other.
    pub fn crossover<F: Fn(&Node) -> Real>(
        &self,
        provider: &Ind,
        max_depth: i32,
        score: &F,
        rng: &mut StdRng,
    ) -> (child: Ind)
        requires
            self.tree.size() <= u64::MAX,
            provider.tree.size() <= u64::MAX,
            forall|t: Node| call_requires(*score, (&t,)),
        ensures
            self.crossed_with(*provider, max_depth as int, child.tree),
            scored(*score, child),
            self.tree.height() <= max_depth ==> child.tree.height() <= max_depth,
            child.tree.height() <= self.tree.height() + provider.tree.height(),
    {
        let p_count = provider.tree.count();
        proof {
            lemma_size_bound(provider.tree);
            lemma_size_bound(self.tree);
        }
        let p_point = draw_below(rng, p_count);
        let r_count = self.tree.count();
        let r_point = draw_below(rng, r_count);
        let child = self.crossover_at(provider, p_point, r_point, max_depth, score, rng);
        assert(self.crossed_at(
            *provider,
            p_point as nat,
            r_point as nat,
            max_depth as int,
            child.tree,
        ));
        child
    }

    /// The mutation at a given point. A random tree, grown within the depth
    /// budget that `max_depth` leaves at the depth of `n_point`, replaces the
    /// subtree of `self` there.
    pub fn mutate_at<F: Fn(&Node) -> Real>(
        &self,
        n_point: u64,
        max_depth: i32,
        score: &F,
        rng: &mut StdRng,
    ) -> (child: Ind)
        requires
            n_point < self.tree.size(),
            forall|t: Node| call_requires(*score, (&t,)),
        ensures
            self.mutated_at(n_point as nat, max_depth as int, child.tree),
            scored(*score, child),
            self.tree.height() <= max_depth ==> child.tree.height() <= max_depth,
            child.tree.height() <= self.tree.height() || child.tree.height() < max_depth,
    {
        let n_depth = self.tree.depth_at_node(n_point);
        let budget = budget_below(max_depth, n_depth);
        let new_subtree = random_node(budget, rng);
        let new_tree = self.tree.replace_node(n_point, &new_subtree);
        proof {
            assert(new_subtree.grown_within(max_depth - n_depth));
            lemma_depth_within_height(self.tree, n_point as nat);
            lemma_grown_height(new_subtree, budget as int);
            lemma_replaced_height(self.tree, n_point as nat, new_subtree);
        }
        let fitness = score(&new_tree);
        Ind { tree: new_tree, fitness: fitness }
    }

    /// A new individual from a mutation at a random point, each node of the
    /// tree being as likely as any other.
    pub fn mutate<F: Fn(&Node) -> Real>(
        &self,
        max_depth: i32,
        score: &F,
        rng: &mut StdRng,
    ) -> (child: Ind)
        requires
            self.tree.size() <= u64::MAX,
            forall|t: Node| call_requires(*score, (&t,)),
        ensures
            self.mutated(max_depth as int, child.tree),
            scored(*score, child),
            self.tree.height() <= max_depth ==> child.tree.height() <= max_depth,
            child.tree.height() <= self.tree.height() || child.tree.height() < max_depth,
    {
        let n_count = self.tree.count();
        proof {
            lemma_size_bound(self.tree);
        }
        let n_point = draw_below(rng, n_count);
        let child = self.mutate_at(n_point, max_depth, score, rng);
        assert(self.mutated_at(n_point as nat, max_depth as int, child.tree));
        child
    }

    /// An exact duplicate that shares nothing with `self`. The fitness is
    /// taken over, not computed again.
    pub fn copy(&self) -> (r: Ind)
        ensures
            r == *self,
    {
        Ind { tree: self.tree.copy(), fitness: self.fitness }
    }
}

/// A new individual with a random tree for the depth budget `max_depth`.
pub fn random_ind<F: Fn(&Node) -> Real>(max_depth: i32, score: &F, rng: &mut StdRng) -> (r: Ind)
    requires
        forall|t: Node| call_requires(*score, (&t,)),
    ensures
        r.tree.grown_within(max_depth as int),
        scored(*score, r),
        r.tree.height() == 0 || r.tree.height() < max_depth,
{
    let rand_node = random_node(max_depth, rng);
    proof {
        lemma_grown_height(rand_node, max_depth as int);
    }
    let fitness = score(&rand_node);
    Ind { tree: rand_node, fitness }
}

impl Clone for Ind {
    fn clone(&self) -> (r: Ind)
        ensures
            r == *self,
    {
        self.copy()
    }
}

} // verus!
