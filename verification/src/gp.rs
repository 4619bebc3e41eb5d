//! The evolution engine: selection, reproduction and the change of
//! generations.

use vstd::prelude::*;
use vstd::arithmetic::power2::{lemma2_to64_rest, lemma_pow2_strictly_increases};
use rand::rngs::StdRng;
use crate::ind::{random_ind, scored, Ind};
use crate::node::{lemma_size_bound, Node};
use crate::number::{lemma_lt_passes_on, Real};
use crate::random::{draw_below, draw_unit};

verus! {

/// The greatest `max_depth` that the engine takes: a tree of that depth has
/// fewer than `2^63` nodes, so that its nodes can be counted.
pub const DEPTH_LIMIT: i32 = 62;

/// The fitness below which a run counts as solved: 0.01, as a binary64
/// pattern.
pub const SOLVED_BELOW: u64 = 0x3F84_7AE1_47AE_147B;

/// The configuration of a run. The engine takes it as it is given.
#[derive(Clone, Copy, Debug, PartialEq, Eq)]
pub struct Params {
    /// The number of individuals of a generation.
    pub pop_size: i32,
    /// The depth that no tree of the run goes beyond.
    pub max_depth: i32,
    /// The number of generations after which the run ends; a value that is
    /// not positive sets no such end.
    pub max_generations: i32,
    /// The number of individuals drawn for a tournament.
    pub tourney_size: i32,
    /// The probability of a crossover: an operator draw below it asks for
    /// one.
    pub crossover_below: Real,
    /// The probability of a crossover plus that of a mutation: an operator
    /// draw below it, and not below `crossover_below`, asks for a mutation.
    /// Every other draw asks for a copy.
    pub mutate_below: Real,
}

/// The three ways to make an individual of the next generation.
#[derive(Clone, Copy, Debug, PartialEq, Eq, Structural)]
pub enum Operator {
    Crossover,
    Mutate,
    Copy,
}

/// The operator that the operator draw `op_rng` asks for.
pub open spec fn op_for(p: Params, op_rng: Real) -> Operator {
    if op_rng.lt(p.crossover_below) {
        Operator::Crossover
    } else if op_rng.lt(p.mutate_below) {
        Operator::Mutate
    } else {
        Operator::Copy
    }
}

/// The operator that the operator draw `op_rng` asks for.
pub fn get_op(p: &Params, op_rng: Real) -> (op: Operator)
    ensures
        op == op_for(*p, op_rng),
{
    if op_rng.less_than(&p.crossover_below) {
        Operator::Crossover
    } else if op_rng.less_than(&p.mutate_below) {
        Operator::Mutate
    } else {
        Operator::Copy
    }
}

/// Whether the first individual is strictly fitter than the second: lower
/// fitness is better, and a fitness that is not a number is never better.
pub fn first_is_better(ind1: &Ind, ind2: &Ind) -> (r: bool)
    ensures
        r == ind1.fitness.lt(ind2.fitness),
        ind1.fitness == ind2.fitness ==> !r,
        ind1.fitness.is_nan() || ind2.fitness.is_nan() ==> !r,
{
    ind1.fitness.less_than(&ind2.fitness)
}

/// Of an incumbent and a contender, the index that stays: the contender's
/// where it is strictly fitter, else the incumbent's.
pub open spec fn stays(pop: Seq<Ind>, incumbent: int, contender: int) -> int {
    if pop[contender].fitness.lt(pop[incumbent].fitness) {
        contender
    } else {
        incumbent
    }
}

/// The index that is left when the individuals at the indices `order` meet
/// in that order: the first is the incumbent, and each later one takes its
/// place where it is strictly fitter.
pub open spec fn winner(pop: Seq<Ind>, order: Seq<int>) -> int
    decreases order.len(),
{
    if order.len() == 0 {
        0
    } else if order.len() == 1 {
        order[0]
    } else {
        stays(pop, winner(pop, order.drop_last()), order.last())
    }
}

/// The indices from 0 up to `n`, in order.
pub open spec fn scan(n: nat) -> Seq<int> {
    Seq::new(n, |i: int| i)
}

/// The index of the best individual of a population: the winner of a scan
/// from the first to the last, so that the first of several equals is
/// taken.
pub open spec fn best_index(pop: Seq<Ind>) -> int {
    winner(pop, scan(pop.len()))
}

/// Whether no individual of the population is strictly fitter than the one
/// at index `i`.
pub open spec fn unbeaten(pop: Seq<Ind>, i: int) -> bool {
    forall|j: int| 0 <= j < pop.len() ==> !(#[trigger] pop[j]).fitness.lt(pop[i].fitness)
}

/// Whether every entry of `order` is an index of a sequence of length `n`.
pub open spec fn within(order: Seq<int>, n: nat) -> bool {
    forall|k: int| 0 <= k < order.len() ==> 0 <= #[trigger] order[k] < n
}

/// The winner is one of those that met, and none of them is strictly fitter.
pub proof fn lemma_winner_unbeaten(pop: Seq<Ind>, order: Seq<int>)
    requires
        order.len() >= 1,
        within(order, pop.len()),
    ensures
        order.contains(winner(pop, order)),
        0 <= winner(pop, order) < pop.len(),
        forall|k: int|
            0 <= k < order.len() ==> !pop[#[trigger] order[k]].fitness.lt(
                pop[winner(pop, order)].fitness,
            ),
    decreases order.len(),
{
    if order.len() == 1 {
        assert(order[0] == winner(pop, order));
    } else {
        let before = order.drop_last();
        lemma_winner_unbeaten(pop, before);
        let w = winner(pop, before);
        let k0 = choose|k: int| 0 <= k < before.len() && before[k] == w;
        assert(order[k0] == w);
        assert(order[order.len() - 1] == order.last());
        assert forall|k: int| 0 <= k < order.len() implies !pop[#[trigger] order[k]].fitness.lt(
            pop[winner(pop, order)].fitness,
        ) by {
            if k < before.len() {
                assert(before[k] == order[k]);
                lemma_lt_passes_on(
                    pop[order[k]].fitness,
                    pop[w].fitness,
                    pop[order.last()].fitness,
                );
            }
        }
    }
}

/// A tournament of one is decided by its single draw.
pub proof fn lemma_winner_of_one(pop: Seq<Ind>, draw: int)
    ensures
        winner(pop, seq![draw]) == draw,
{
}

/// Where every individual of the population takes part, the winner is a
/// best of the whole population: none is strictly fitter.
pub proof fn lemma_winner_of_all(pop: Seq<Ind>, order: Seq<int>)
    requires
        order.len() >= 1,
        within(order, pop.len()),
        forall|j: int| 0 <= j < pop.len() ==> order.contains(j),
    ensures
        unbeaten(pop, winner(pop, order)),
{
    lemma_winner_unbeaten(pop, order);
    let w = winner(pop, order);
    assert forall|j: int| 0 <= j < pop.len() implies !(#[trigger] pop[j]).fitness.lt(
        pop[w].fitness,
    ) by {
        assert(order.contains(j));
        let k = choose|k: int| 0 <= k < order.len() && order[k] == j;
        assert(order[k] == j);
    }
}

/// The best of a population exists and none is strictly fitter than it.
pub proof fn lemma_best_unbeaten(pop: Seq<Ind>)
    requires
        pop.len() >= 1,
    ensures
        0 <= best_index(pop) < pop.len(),
        unbeaten(pop, best_index(pop)),
{
    let order = scan(pop.len());
    assert forall|j: int| 0 <= j < pop.len() implies order.contains(j) by {
        assert(order[j] == j);
    }
    lemma_winner_of_all(pop, order);
    lemma_winner_unbeaten(pop, order);
}

/// Of an incumbent and a contender, the index of the one that stays.
pub fn better_of(current_pop: &Vec<Ind>, incumbent: usize, contender: usize) -> (r: usize)
    requires
        incumbent < current_pop.len(),
        contender < current_pop.len(),
    ensures
        r == stays(current_pop@, incumbent as int, contender as int),
{
    if first_is_better(&current_pop[contender], &current_pop[incumbent]) {
        contender
    } else {
        incumbent
    }
}

/// The index of the best individual of the population: the lowest fitness
/// wins, and of several equals the first.
pub fn find_best(current_pop: &Vec<Ind>) -> (best_index: usize)
    requires
        current_pop.len() >= 1,
    ensures
        best_index == self::best_index(current_pop@),
        best_index < current_pop.len(),
        unbeaten(current_pop@, best_index as int),
{
    let mut best_index: usize = 0;
    let mut i: usize = 1;
    assert(scan(1) =~= seq![0int]);
    while i < current_pop.len()
        invariant
            1 <= i <= current_pop.len(),
            best_index < i,
            best_index == winner(current_pop@, scan(i as nat)),
        decreases current_pop.len() - i,
    {
        assert(scan((i + 1) as nat).drop_last() =~= scan(i as nat));
        best_index = better_of(current_pop, best_index, i);
        i = i + 1;
    }
    proof {
        lemma_best_unbeaten(current_pop@);
    }
    best_index
}

/// The number of draws of a tournament: `tourney_size`, and at least one.
pub open spec fn draws_of(p: Params) -> nat {
    if p.tourney_size <= 1 {
        1
    } else {
        p.tourney_size as nat
    }
}

/// The index of the winner of a tournament. Each of its `tourney_size`
/// participants is drawn from the whole population, each individual being as
/// likely as any other, also one that was drawn before.
pub fn tourney_pick(p: &Params, current_pop: &Vec<Ind>, rng: &mut StdRng) -> (best_index: usize)
    requires
        current_pop.len() >= 1,
    ensures
        best_index < current_pop.len(),
        exists|draws: Seq<int>|
            {
                &&& draws.len() == draws_of(*p)
                &&& within(draws, current_pop.len() as nat)
                &&& best_index == #[trigger] winner(current_pop@, draws)
            },
{
    let mut best_index: usize = draw_below(rng, current_pop.len() as u64) as usize;
    let ghost mut draws: Seq<int> = seq![best_index as int];
    let mut round: i32 = 1;
    while round < p.tourney_size
        invariant
            1 <= round,
            round <= p.tourney_size || round == 1,
            current_pop.len() >= 1,
            best_index < current_pop.len(),
            draws.len() == round,
            within(draws, current_pop.len() as nat),
            best_index == winner(current_pop@, draws),
        decreases p.tourney_size - round,
    {
        let ind_index: usize = draw_below(rng, current_pop.len() as u64) as usize;
        proof {
            let before = draws;
            draws = draws.push(ind_index as int);
            assert(draws.drop_last() =~= before);
        }
        best_index = better_of(current_pop, best_index, ind_index);
        round = round + 1;
    }
    best_index
}

/// The height that no tree of a run with the given `max_depth` exceeds.
pub open spec fn depth_cap(max_depth: int) -> nat {
    if max_depth < 0 {
        0
    } else {
        max_depth as nat
    }
}

/// Whether every tree of the population keeps to the depth bound of the run.
pub open spec fn all_within(pop: Seq<Ind>, max_depth: int) -> bool {
    forall|i: int| 0 <= i < pop.len() ==> (#[trigger] pop[i]).tree.height() <= depth_cap(max_depth)
}

/// Whether the operator `op` can make the child of the parents at the
/// indices `a` and `b` of the pool: it is applied to the first parent, with
/// the second as the provider of a crossover.
pub open spec fn made_by<F: Fn(&Node) -> Real>(
    pool: Seq<Ind>,
    child: Ind,
    p: Params,
    score: F,
    op: Operator,
    a: int,
    b: int,
) -> bool {
    &&& 0 <= a < pool.len()
    &&& 0 <= b < pool.len()
    &&& match op {
        Operator::Crossover => pool[a].crossed_with(pool[b], p.max_depth as int, child.tree)
            && scored(score, child),
        Operator::Mutate => pool[a].mutated(p.max_depth as int, child.tree) && scored(
            score,
            child,
        ),
        Operator::Copy => child == pool[a],
    }
}

/// Whether the operator `op` can make the child of some parents of the pool.
#[verifier::opaque]
pub open spec fn bred_by<F: Fn(&Node) -> Real>(
    pool: Seq<Ind>,
    child: Ind,
    p: Params,
    score: F,
    op: Operator,
) -> bool {
    exists|a: int, b: int| #[trigger] made_by(pool, child, p, score, op, a, b)
}

/// Whether the child can come of the pool by one reproduction step: by the
/// operator that some draw from the unit interval asks for.
#[verifier::opaque]
pub open spec fn bred_from<F: Fn(&Node) -> Real>(
    pool: Seq<Ind>,
    child: Ind,
    p: Params,
    score: F,
) -> bool {
    exists|op_rng: Real|
        op_rng.in_unit_interval() && #[trigger] bred_by(pool, child, p, score, op_for(p, op_rng))
}

/// A tree within the depth limit has a number of nodes that can be counted.
pub proof fn lemma_countable(tree: Node)
    requires
        tree.height() <= DEPTH_LIMIT,
    ensures
        tree.size() <= u64::MAX,
{
    lemma_size_bound(tree);
    lemma2_to64_rest();
    if tree.height() + 1 < 63 {
        lemma_pow2_strictly_increases(tree.height() + 1, 63);
    }
}

/// The initial population: `pop_size` individuals with random trees for the
/// depth budget `max_depth`.
pub fn init_pop<F: Fn(&Node) -> Real>(p: &Params, score: &F, rng: &mut StdRng) -> (current_pop: Vec<
    Ind,
>)
    requires
        forall|t: Node| call_requires(*score, (&t,)),
    ensures
        current_pop.len() == if p.pop_size < 0 { 0 } else { p.pop_size as int },
        forall|i: int|
            0 <= i < current_pop.len() ==> (#[trigger] current_pop@[i]).tree.grown_within(
                p.max_depth as int,
            ) && scored(*score, current_pop@[i]),
        all_within(current_pop@, p.max_depth as int),
{
    let mut current_pop: Vec<Ind> = Vec::new();
    let mut made: i32 = 0;
    while made < p.pop_size
        invariant
            0 <= made,
            made <= p.pop_size || made == 0,
            current_pop.len() == made,
            forall|i: int|
                0 <= i < current_pop.len() ==> (#[trigger] current_pop@[i]).tree.grown_within(
                    p.max_depth as int,
                ) && scored(*score, current_pop@[i]),
            all_within(current_pop@, p.max_depth as int),
            forall|t: Node| call_requires(*score, (&t,)),
        decreases p.pop_size - made,
    {
        let ind = random_ind(p.max_depth, score, rng);
        current_pop.push(ind);
        made = made + 1;
    }
    current_pop
}

/// One reproduction step with a given operator: its parents are picked by
/// tournament from the pool, two for a crossover and one for a mutation or a
/// copy, and the new individual is made of them.
pub fn breed_by<F: Fn(&Node) -> Real>(
    op: Operator,
    p: &Params,
    current_pop: &Vec<Ind>,
    score: &F,
    rng: &mut StdRng,
) -> (new_ind: Ind)
    requires
        current_pop.len() >= 1,
        p.max_depth <= DEPTH_LIMIT,
        all_within(current_pop@, p.max_depth as int),
        forall|t: Node| call_requires(*score, (&t,)),
    ensures
        bred_by(current_pop@, new_ind, *p, *score, op),
        new_ind.tree.height() <= depth_cap(p.max_depth as int),
{
    proof {
        reveal(bred_by);
    }
    match op {
        Operator::Crossover => {
            let first = tourney_pick(p, current_pop, rng);
            let second = tourney_pick(p, current_pop, rng);
            let ind1 = &current_pop[first];
            let ind2 = &current_pop[second];
            proof {
                lemma_countable(ind1.tree);
                lemma_countable(ind2.tree);
            }
            let new_ind = ind1.crossover(ind2, p.max_depth, score, rng);
            assert(made_by(current_pop@, new_ind, *p, *score, op, first as int, second as int));
            new_ind
        },
        Operator::Mutate => {
            let first = tourney_pick(p, current_pop, rng);
            proof {
                lemma_countable(current_pop@[first as int].tree);
            }
            let new_ind = current_pop[first].mutate(p.max_depth, score, rng);
            assert(made_by(current_pop@, new_ind, *p, *score, op, first as int, first as int));
            new_ind
        },
        Operator::Copy => {
            let first = tourney_pick(p, current_pop, rng);
            let new_ind = current_pop[first].copy();
            assert(made_by(current_pop@, new_ind, *p, *score, op, first as int, first as int));
            new_ind
        },
    }
}

/// One reproduction step: an operator is drawn, its parents are picked by
/// tournament from the pool as it stands, and the new individual is made.
pub fn breed<F: Fn(&Node) -> Real>(
    p: &Params,
    current_pop: &Vec<Ind>,
    score: &F,
    rng: &mut StdRng,
) -> (new_ind: Ind)
    requires
        current_pop.len() >= 1,
        p.max_depth <= DEPTH_LIMIT,
        all_within(current_pop@, p.max_depth as int),
        forall|t: Node| call_requires(*score, (&t,)),
    ensures
        bred_from(current_pop@, new_ind, *p, *score),
        new_ind.tree.height() <= depth_cap(p.max_depth as int),
{
    let op_rng = draw_unit(rng);
    let op = get_op(p, op_rng);
    let new_ind = breed_by(op, p, current_pop, score, rng);
    proof {
        reveal(bred_from);
    }
    new_ind
}

/// The change of generations. A copy of the best individual comes first;
/// then individuals are bred, each from the old generation together with all
/// that came before it in the new one, until the new generation is as large
/// as the old one, which it replaces.
pub fn next_gen<F: Fn(&Node) -> Real>(
    p: &Params,
    current_pop: &mut Vec<Ind>,
    score: &F,
    rng: &mut StdRng,
)
    requires
        p.pop_size >= 1,
        old(current_pop).len() == p.pop_size,
        p.max_depth <= DEPTH_LIMIT,
        all_within(old(current_pop)@, p.max_depth as int),
        forall|t: Node| call_requires(*score, (&t,)),
    ensures
        final(current_pop).len() == p.pop_size,
        final(current_pop)@[0] == old(current_pop)@[best_index(old(current_pop)@)],
        forall|j: int|
            1 <= j < p.pop_size ==> bred_from(
                old(current_pop)@ + final(current_pop)@.take(j),
                #[trigger] final(current_pop)@[j],
                *p,
                *score,
            ),
        all_within(final(current_pop)@, p.max_depth as int),
        !old(current_pop)@[best_index(old(current_pop)@)].fitness.lt(
            final(current_pop)@[best_index(final(current_pop)@)].fitness,
        ),
{
    let ghost old_pop = current_pop@;
    let pop_size: usize = p.pop_size as usize;
    let best_index = find_best(current_pop);
    let elite = current_pop[best_index].copy();
    current_pop.push(elite);
    assert(current_pop@.take(pop_size as int) =~= old_pop);
    while current_pop.len() < 2 * pop_size
        invariant
            pop_size == p.pop_size,
            pop_size >= 1,
            pop_size + 1 <= current_pop.len() <= 2 * pop_size,
            current_pop@.take(pop_size as int) == old_pop,
            current_pop@[pop_size as int] == old_pop[self::best_index(old_pop)],
            forall|k: int|
                pop_size < k < current_pop.len() ==> bred_from(
                    current_pop@.take(k),
                    #[trigger] current_pop@[k],
                    *p,
                    *score,
                ),
            all_within(current_pop@, p.max_depth as int),
            p.max_depth <= DEPTH_LIMIT,
            forall|t: Node| call_requires(*score, (&t,)),
        decreases 2 * pop_size - current_pop.len(),
    {
        let ghost before = current_pop@;
        let new_ind = breed(p, current_pop, score, rng);
        current_pop.push(new_ind);
        proof {
            assert(current_pop@.take(pop_size as int) =~= before.take(pop_size as int));
            assert forall|k: int| pop_size < k < current_pop.len() implies bred_from(
                current_pop@.take(k),
                #[trigger] current_pop@[k],
                *p,
                *score,
            ) by {
                if k < before.len() {
                    assert(current_pop@.take(k) =~= before.take(k));
                    assert(current_pop@[k] == before[k]);
                } else {
                    assert(current_pop@.take(k) =~= before);
                }
            }
        }
    }
    let ghost grown = current_pop@;
    let next = current_pop.split_off(pop_size);
    *current_pop = next;
    proof {
        assert forall|j: int| 1 <= j < p.pop_size implies bred_from(
            old_pop + current_pop@.take(j),
            #[trigger] current_pop@[j],
            *p,
            *score,
        ) by {
            assert(current_pop@[j] == grown[pop_size + j]);
            assert(grown.take(pop_size + j) =~= old_pop + current_pop@.take(j));
        }
        assert forall|i: int| 0 <= i < current_pop@.len() implies (#[trigger] current_pop@[
            i
        ]).tree.height() <= depth_cap(p.max_depth as int) by {
            assert(current_pop@[i] == grown[pop_size + i]);
        }
        assert(current_pop@[0] == grown[pop_size as int]);
        lemma_elitism(old_pop, current_pop@);
    }
}

/// A generation that starts with a copy of the best of the one before has a
/// best that is not worse: the old best is not strictly fitter than the new.
pub proof fn lemma_elitism(old_pop: Seq<Ind>, new_pop: Seq<Ind>)
    requires
        old_pop.len() >= 1,
        new_pop.len() >= 1,
        new_pop[0] == old_pop[best_index(old_pop)],
    ensures
        !old_pop[best_index(old_pop)].fitness.lt(new_pop[best_index(new_pop)].fitness),
{
    lemma_best_unbeaten(new_pop);
}

/// Whether the run ends at this check: the best fitness is below 0.01, or a
/// positive `max_generations` has been reached, or a stop was asked for.
pub fn finished(p: &Params, current_gen: i32, best_of_gen: &Ind, user_stop: bool) -> (r: bool)
    ensures
        r == (best_of_gen.fitness.lt(Real { bits: SOLVED_BELOW }) || (p.max_generations > 0
            && current_gen >= p.max_generations) || user_stop),
        user_stop ==> r,
{
    let check_max_gens: bool = p.max_generations > 0;
    best_of_gen.fitness.less_than(&Real::from_bits(SOLVED_BELOW)) || (check_max_gens && current_gen
        >= p.max_generations) || user_stop
}

/// The state of a run between two termination checks: the number of the
/// generation, its population, and the index of its best individual.
///
/// A run starts with `Run::start`. Its driver then asks `Run::finished` once
/// for each generation, handing in whether a stop was asked for since the
/// last check, and calls `Run::advance` as long as the answer is no. The
/// result of the run is `Run::best_of_gen` of the generation it ended in.
#[derive(Debug)]
pub struct Run {
    pub current_gen: i32,
    pub current_pop: Vec<Ind>,
    pub best_of_gen_index: usize,
}

impl Run {
    /// Whether the state is one that a run with the configuration `p` can be
    /// in.
    pub open spec fn wf(self, p: Params) -> bool {
        &&& self.current_gen >= 0
        &&& p.pop_size >= 1
        &&& p.max_depth <= DEPTH_LIMIT
        &&& self.current_pop.len() == p.pop_size
        &&& all_within(self.current_pop@, p.max_depth as int)
        &&& self.best_of_gen_index < self.current_pop.len()
        &&& self.best_of_gen_index == best_index(self.current_pop@)
    }

    /// The best individual of the current generation.
    pub open spec fn best(self) -> Ind {
        self.current_pop@[self.best_of_gen_index as int]
    }

    /// Generation 0: a random initial population and its best individual.
    pub fn start<F: Fn(&Node) -> Real>(p: &Params, score: &F, rng: &mut StdRng) -> (run: Run)
        requires
            p.pop_size >= 1,
            p.max_depth <= DEPTH_LIMIT,
            forall|t: Node| call_requires(*score, (&t,)),
        ensures
            run.wf(*p),
            run.current_gen == 0,
            forall|i: int|
                0 <= i < p.pop_size ==> (#[trigger] run.current_pop@[i]).tree.grown_within(
                    p.max_depth as int,
                ) && scored(*score, run.current_pop@[i]),
    {
        let current_pop = init_pop(p, score, rng);
        let best_of_gen_index = find_best(&current_pop);
        Run { current_gen: 0, current_pop, best_of_gen_index }
    }

    /// The best individual of the current generation.
    pub fn best_of_gen(&self) -> (best: &Ind)
        requires
            self.best_of_gen_index < self.current_pop.len(),
        ensures
            *best == self.best(),
    {
        &self.current_pop[self.best_of_gen_index]
    }

    /// The termination check of the current generation.
    pub fn finished(&self, p: &Params, user_stop: bool) -> (r: bool)
        requires
            self.best_of_gen_index < self.current_pop.len(),
        ensures
            r == (self.best().fitness.lt(Real { bits: SOLVED_BELOW }) || (p.max_generations > 0
                && self.current_gen >= p.max_generations) || user_stop),
            user_stop ==> r,
    {
        finished(p, self.current_gen, self.best_of_gen(), user_stop)
    }

    /// The step to the next generation.
    pub fn advance<F: Fn(&Node) -> Real>(&mut self, p: &Params, score: &F, rng: &mut StdRng)
        requires
            old(self).wf(*p),
            old(self).current_gen < i32::MAX,
            forall|t: Node| call_requires(*score, (&t,)),
        ensures
            final(self).wf(*p),
            final(self).current_gen == old(self).current_gen + 1,
            final(self).current_pop@[0] == old(self).best(),
            forall|j: int|
                1 <= j < p.pop_size ==> bred_from(
                    old(self).current_pop@ + final(self).current_pop@.take(j),
                    #[trigger] final(self).current_pop@[j],
                    *p,
                    *score,
                ),
            !old(self).best().fitness.lt(final(self).best().fitness),
    {
        next_gen(p, &mut self.current_pop, score, rng);
        self.current_gen = self.current_gen + 1;
        self.best_of_gen_index = find_best(&self.current_pop);
    }
}

} // verus!
