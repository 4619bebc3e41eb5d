use rand::rngs::StdRng;
use rand::{Rng, SeedableRng};
use symreg::gp::{
    better_of, breed, breed_by, find_best, finished, first_is_better, get_op, init_pop, next_gen,
    tourney_pick, Operator, Params, Run, DEPTH_LIMIT, SOLVED_BELOW,
};
use symreg::ind::Ind;
use symreg::node::Node;
use symreg::number::Real;

fn num(v: f64) -> Real {
    Real::from_bits(v.to_bits())
}

fn val(r: Real) -> f64 {
    f64::from_bits(r.to_bits())
}

fn eval(node: &Node, x: f64) -> f64 {
    match node {
        Node::Constant(v) => f64::from_bits(v.to_bits()),
        Node::Var => x,
        Node::Plus(l, r) => eval(l, x) + eval(r, x),
        Node::Minus(l, r) => eval(l, x) - eval(r, x),
        Node::Mult(l, r) => eval(l, x) * eval(r, x),
        Node::Div(l, r) => eval(l, x) / eval(r, x),
    }
}

fn error_on(tree: &Node, points: &[(f64, f64)]) -> Real {
    num(points
        .iter()
        .fold(0.0, |acc, (x, y)| acc + (*y - eval(tree, *x)).abs()))
}

fn line() -> Vec<(f64, f64)> {
    vec![(0.0, 0.0), (1.0, 1.0), (2.0, 2.0)]
}

fn parabola() -> Vec<(f64, f64)> {
    (0..20)
        .map(|i| {
            let x = i as f64 / 4.0;
            (x, x * x + 0.5)
        })
        .collect()
}

fn height(node: &Node) -> i32 {
    match node {
        Node::Constant(_) | Node::Var => 0,
        Node::Plus(l, r) | Node::Minus(l, r) | Node::Mult(l, r) | Node::Div(l, r) => {
            1 + height(l).max(height(r))
        }
    }
}

fn params(pop_size: i32, max_depth: i32, max_generations: i32) -> Params {
    Params {
        pop_size,
        max_depth,
        max_generations,
        tourney_size: 3,
        crossover_below: num(0.90),
        mutate_below: num(0.90 + 0.05),
    }
}

fn with_fitness(values: &[f64]) -> Vec<Ind> {
    values
        .iter()
        .map(|v| Ind { tree: Node::Var, fitness: num(*v) })
        .collect()
}

#[test]
fn get_op_by_the_thresholds() {
    let p = params(10, 4, 0);
    assert_eq!(get_op(&p, num(0.0)), Operator::Crossover);
    assert_eq!(get_op(&p, num(0.5)), Operator::Crossover);
    assert_eq!(get_op(&p, num(0.8999999)), Operator::Crossover);
    assert_eq!(get_op(&p, num(0.90)), Operator::Mutate);
    assert_eq!(get_op(&p, num(0.94)), Operator::Mutate);
    assert_eq!(get_op(&p, num(0.90 + 0.05)), Operator::Copy);
    assert_eq!(get_op(&p, num(0.99)), Operator::Copy);
}

#[test]
fn get_op_with_probabilities_that_do_not_sum_to_one() {
    let mut p = params(10, 4, 0);
    p.crossover_below = num(0.2);
    p.mutate_below = num(0.2 + 0.1);
    assert_eq!(get_op(&p, num(0.1)), Operator::Crossover);
    assert_eq!(get_op(&p, num(0.25)), Operator::Mutate);
    assert_eq!(get_op(&p, num(0.5)), Operator::Copy);
    p.crossover_below = num(1.5);
    assert_eq!(get_op(&p, num(0.999)), Operator::Crossover);
    p.crossover_below = num(0.0);
    p.mutate_below = num(0.0);
    assert_eq!(get_op(&p, num(0.0)), Operator::Copy);
    p.crossover_below = num(f64::NAN);
    p.mutate_below = num(f64::NAN);
    assert_eq!(get_op(&p, num(0.3)), Operator::Copy);
    p.mutate_below = num(0.7);
    assert_eq!(get_op(&p, num(0.3)), Operator::Mutate);
}

#[test]
fn first_is_better_is_strict() {
    let pop = with_fitness(&[1.0, 2.0, 1.0, f64::NAN, f64::INFINITY]);
    assert!(first_is_better(&pop[0], &pop[1]));
    assert!(!first_is_better(&pop[1], &pop[0]));
    assert!(!first_is_better(&pop[0], &pop[2]));
    assert!(!first_is_better(&pop[3], &pop[1]));
    assert!(!first_is_better(&pop[1], &pop[3]));
    assert!(!first_is_better(&pop[3], &pop[3]));
    assert!(first_is_better(&pop[1], &pop[4]));
}

#[test]
fn better_of_keeps_the_incumbent_on_a_tie() {
    let pop = with_fitness(&[1.0, 2.0, 1.0, f64::NAN]);
    assert_eq!(better_of(&pop, 1, 0), 0);
    assert_eq!(better_of(&pop, 0, 1), 0);
    assert_eq!(better_of(&pop, 0, 2), 0);
    assert_eq!(better_of(&pop, 2, 0), 2);
    assert_eq!(better_of(&pop, 3, 0), 3);
    assert_eq!(better_of(&pop, 0, 3), 0);
}

#[test]
fn find_best_takes_the_lowest_fitness() {
    assert_eq!(find_best(&with_fitness(&[3.0, 1.0, 2.0])), 1);
    assert_eq!(find_best(&with_fitness(&[3.0, 4.0, 0.5, 7.0, 0.25])), 4);
    assert_eq!(find_best(&with_fitness(&[3.0])), 0);
}

#[test]
fn find_best_takes_the_first_of_equals() {
    assert_eq!(find_best(&with_fitness(&[2.0, 1.0, 1.0, 1.0])), 1);
    assert_eq!(find_best(&with_fitness(&[0.0, 0.0])), 0);
    assert_eq!(find_best(&with_fitness(&[0.0, -0.0])), 0);
}

#[test]
fn find_best_with_fitness_that_is_not_a_number() {
    assert_eq!(find_best(&with_fitness(&[2.0, f64::NAN, 1.0])), 2);
    assert_eq!(find_best(&with_fitness(&[2.0, f64::NAN, 3.0])), 0);
    // an incumbent that is not a number is never beaten
    assert_eq!(find_best(&with_fitness(&[f64::NAN, 1.0, 0.0])), 0);
    assert_eq!(find_best(&with_fitness(&[5.0, f64::INFINITY, 4.0])), 2);
}

#[test]
fn tourney_pick_of_one_is_a_single_draw() {
    let pop = with_fitness(&[5.0, 4.0, 3.0, 2.0, 1.0, 0.5, 9.0]);
    for size in [1, 0, -3] {
        let mut p = params(7, 4, 0);
        p.tourney_size = size;
        let mut ours = StdRng::seed_from_u64(31);
        let mut theirs = StdRng::seed_from_u64(31);
        for _ in 0..200 {
            let expected: u64 = theirs.gen_range(0..7);
            assert_eq!(tourney_pick(&p, &pop, &mut ours) as u64, expected);
        }
    }
}

#[test]
fn tourney_pick_takes_the_best_of_its_draws() {
    let fitness = [5.0, 4.0, 3.0, 2.0, 1.0, 0.5, 9.0, 0.5];
    let pop = with_fitness(&fitness);
    let p = params(8, 4, 0);
    let mut ours = StdRng::seed_from_u64(32);
    let mut theirs = StdRng::seed_from_u64(32);
    for _ in 0..200 {
        let mut expected: u64 = theirs.gen_range(0..8);
        for _ in 1..3 {
            let next: u64 = theirs.gen_range(0..8);
            if fitness[next as usize] < fitness[expected as usize] {
                expected = next;
            }
        }
        assert_eq!(tourney_pick(&p, &pop, &mut ours) as u64, expected);
    }
}

#[test]
fn tourney_pick_in_a_population_of_one() {
    let pop = with_fitness(&[5.0]);
    let mut rng = StdRng::seed_from_u64(33);
    for size in [1, 2, 10] {
        let mut p = params(1, 4, 0);
        p.tourney_size = size;
        assert_eq!(tourney_pick(&p, &pop, &mut rng), 0);
    }
}

#[test]
fn a_long_tournament_finds_a_best() {
    let pop = with_fitness(&[5.0, 4.0, 0.5, 2.0, 1.0, 0.5, 9.0, f64::INFINITY]);
    let mut p = params(8, 4, 0);
    p.tourney_size = 400;
    let mut rng = StdRng::seed_from_u64(34);
    for _ in 0..20 {
        let picked = tourney_pick(&p, &pop, &mut rng);
        assert!(picked == 2 || picked == 5);
    }
}

#[test]
fn a_tournament_winner_is_not_beaten_by_a_participant() {
    let fitness = [5.0, f64::NAN, 0.5, 2.0, f64::NAN, 0.5, 9.0, 1.0];
    let pop = with_fitness(&fitness);
    let mut p = params(8, 4, 0);
    p.tourney_size = 4;
    let mut ours = StdRng::seed_from_u64(46);
    let mut theirs = StdRng::seed_from_u64(46);
    let mut kept_a_first_draw_that_is_not_a_number = false;
    for _ in 0..300 {
        let draws: Vec<u64> = (0..4).map(|_| theirs.gen_range(0..8)).collect();
        let picked = tourney_pick(&p, &pop, &mut ours);
        assert!(draws.contains(&(picked as u64)));
        for d in draws.iter() {
            assert!(!(fitness[*d as usize] < fitness[picked]));
        }
        if fitness[draws[0] as usize].is_nan() {
            assert_eq!(picked as u64, draws[0]);
            kept_a_first_draw_that_is_not_a_number = true;
        }
    }
    assert!(kept_a_first_draw_that_is_not_a_number);
}

#[test]
fn a_tournament_as_large_as_the_population_may_miss_the_best() {
    let pop = with_fitness(&[1.0, 2.0]);
    let mut p = params(2, 4, 0);
    p.tourney_size = 2;
    let mut rng = StdRng::seed_from_u64(35);
    let mut missed = false;
    for _ in 0..200 {
        if tourney_pick(&p, &pop, &mut rng) == 1 {
            missed = true;
        }
    }
    assert!(missed);
}

#[test]
fn init_pop_makes_pop_size_scored_individuals() {
    let points = line();
    let score = |t: &Node| error_on(t, &points);
    let mut rng = StdRng::seed_from_u64(36);
    let pop = init_pop(&params(50, 4, 0), &score, &mut rng);
    assert_eq!(pop.len(), 50);
    for ind in pop.iter() {
        assert!(height(&ind.tree) <= 4);
        assert_eq!(ind.fitness, error_on(&ind.tree, &points));
    }
    assert_eq!(init_pop(&params(0, 4, 0), &score, &mut rng).len(), 0);
    assert_eq!(init_pop(&params(-4, 4, 0), &score, &mut rng).len(), 0);
}

#[test]
fn breed_copies_when_no_other_operator_has_a_chance() {
    let points = line();
    let score = |t: &Node| error_on(t, &points);
    let mut rng = StdRng::seed_from_u64(37);
    let mut p = params(3, 4, 0);
    p.crossover_below = num(0.0);
    p.mutate_below = num(0.0);
    let pop = with_fitness(&[3.0, 1.0, 2.0]);
    for _ in 0..50 {
        let child = breed(&p, &pop, &score, &mut rng);
        assert!(pop.contains(&child));
    }
}

#[test]
fn breed_scores_what_it_makes() {
    let points = parabola();
    let score = |t: &Node| error_on(t, &points);
    let mut rng = StdRng::seed_from_u64(38);
    let p = params(30, 5, 0);
    let pop = init_pop(&p, &score, &mut rng);
    let mut changed = false;
    for _ in 0..200 {
        let child = breed(&p, &pop, &score, &mut rng);
        assert!(height(&child.tree) <= 5);
        assert_eq!(child.fitness.to_bits(), error_on(&child.tree, &points).to_bits());
        if !pop.iter().any(|ind| ind.tree == child.tree) {
            changed = true;
        }
    }
    assert!(changed);
}

#[test]
fn next_gen_keeps_the_size_and_carries_the_best_over() {
    let points = parabola();
    let score = |t: &Node| error_on(t, &points);
    let mut rng = StdRng::seed_from_u64(39);
    let p = params(40, 5, 0);
    let mut pop = init_pop(&p, &score, &mut rng);
    for _ in 0..10 {
        let best = pop[find_best(&pop)].clone();
        next_gen(&p, &mut pop, &score, &mut rng);
        assert_eq!(pop.len(), 40);
        assert_eq!(pop[0].tree, best.tree);
        assert_eq!(pop[0].fitness.to_bits(), best.fitness.to_bits());
        for ind in pop.iter() {
            assert!(height(&ind.tree) <= 5);
            assert_eq!(ind.fitness.to_bits(), error_on(&ind.tree, &points).to_bits());
        }
        let new_best = &pop[find_best(&pop)];
        assert!(!(val(best.fitness) < val(new_best.fitness)));
    }
}

#[test]
fn next_gen_of_a_population_of_one_is_its_copy() {
    let points = line();
    let score = |t: &Node| error_on(t, &points);
    let mut rng = StdRng::seed_from_u64(40);
    let p = params(1, 4, 0);
    let mut pop = init_pop(&p, &score, &mut rng);
    let only = pop[0].clone();
    next_gen(&p, &mut pop, &score, &mut rng);
    assert_eq!(pop, vec![only]);
}

#[test]
fn next_gen_breeds_from_the_growing_pool() {
    // with copies only, every member of the new generation is a member of the old one
    let points = line();
    let score = |t: &Node| error_on(t, &points);
    let mut rng = StdRng::seed_from_u64(41);
    let mut p = params(20, 4, 0);
    p.crossover_below = num(0.0);
    p.mutate_below = num(0.0);
    let mut pop = init_pop(&p, &score, &mut rng);
    let old = pop.clone();
    next_gen(&p, &mut pop, &score, &mut rng);
    assert_eq!(pop.len(), 20);
    assert_eq!(pop[0], old[find_best(&old)]);
    for ind in pop.iter() {
        assert!(old.contains(ind));
    }
}

#[test]
fn finished_when_solved() {
    let p = params(10, 4, 0);
    let best = |v: f64| Ind { tree: Node::Var, fitness: num(v) };
    assert!(finished(&p, 0, &best(0.0), false));
    assert!(finished(&p, 3, &best(0.009999), false));
    assert!(!finished(&p, 3, &best(0.01), false));
    assert!(!finished(&p, 3, &best(0.5), false));
    assert!(!finished(&p, 3, &best(f64::NAN), false));
    assert!(!finished(&p, 3, &best(f64::INFINITY), false));
    assert_eq!(SOLVED_BELOW, 0.01f64.to_bits());
}

#[test]
fn finished_at_the_last_generation() {
    let best = Ind { tree: Node::Var, fitness: num(1.0) };
    let p = params(10, 4, 5);
    assert!(!finished(&p, 0, &best, false));
    assert!(!finished(&p, 4, &best, false));
    assert!(finished(&p, 5, &best, false));
    assert!(finished(&p, 6, &best, false));
    for unbounded in [0, -1, i32::MIN] {
        let p = params(10, 4, unbounded);
        assert!(!finished(&p, 0, &best, false));
        assert!(!finished(&p, i32::MAX, &best, false));
    }
}

#[test]
fn finished_on_a_stop() {
    let best = Ind { tree: Node::Var, fitness: num(1.0) };
    for max_generations in [0, -1, 100] {
        let p = params(10, 4, max_generations);
        assert!(finished(&p, 0, &best, true));
        assert!(finished(&p, 17, &best, true));
    }
}

#[test]
fn a_run_stops_at_the_next_check_after_a_stop() {
    let points = parabola();
    let score = |t: &Node| error_on(t, &points);
    let mut rng = StdRng::seed_from_u64(42);
    for max_generations in [0, -1] {
        let p = params(20, 4, max_generations);
        let run = Run::start(&p, &score, &mut rng);
        assert_eq!(run.current_gen, 0);
        assert!(run.finished(&p, true));
    }
}

#[test]
fn a_run_of_one_generation() {
    let points = parabola();
    let score = |t: &Node| error_on(t, &points);
    let mut rng = StdRng::seed_from_u64(43);
    let p = params(50, 4, 1);
    let mut run = Run::start(&p, &score, &mut rng);
    let mut checks = 0;
    while !run.finished(&p, false) {
        run.advance(&p, &score, &mut rng);
        checks += 1;
    }
    assert_eq!(checks, 1);
    assert_eq!(run.current_gen, 1);
    assert_eq!(run.current_pop.len(), 50);
    assert_eq!(run.best_of_gen_index, find_best(&run.current_pop));
}

#[test]
fn a_run_finds_the_line() {
    let points = line();
    let score = |t: &Node| error_on(t, &points);
    for seed in 10..36 {
        let mut rng = StdRng::seed_from_u64(seed);
        let p = params(50, 4, 100);
        let mut run = Run::start(&p, &score, &mut rng);
        while !run.finished(&p, false) {
            run.advance(&p, &score, &mut rng);
        }
        assert!(val(run.best_of_gen().fitness) < 0.01);
        assert!(run.current_gen < 100);
        let best = run.best_of_gen();
        for (x, y) in points.iter() {
            assert!((eval(&best.tree, *x) - y).abs() < 0.01);
        }
    }
}

#[test]
fn a_run_finds_the_parabola_s_shape() {
    // x * x + 0.5 is not among the first trees; the error must come down
    let points = parabola();
    let score = |t: &Node| error_on(t, &points);
    let mut rng = StdRng::seed_from_u64(47);
    let p = params(200, 5, 40);
    let mut run = Run::start(&p, &score, &mut rng);
    let first = val(run.best_of_gen().fitness);
    while !run.finished(&p, false) {
        run.advance(&p, &score, &mut rng);
    }
    let last = val(run.best_of_gen().fitness);
    assert!(last < first);
    assert!(run.current_gen <= 40);
}

#[test]
fn a_first_individual_that_is_not_a_number_stays_the_best() {
    // no comparison with it is true, so nothing takes its place
    let points = line();
    let score = |t: &Node| error_on(t, &points);
    let mut rng = StdRng::seed_from_u64(48);
    let p = params(5, 4, 3);
    let zero_by_zero = Node::Div(Box::new(Node::Var), Box::new(Node::Var));
    let mut pop = vec![Ind { fitness: score(&zero_by_zero), tree: zero_by_zero.clone() }];
    for _ in 1..5 {
        pop.push(Ind { tree: Node::Var, fitness: score(&Node::Var) });
    }
    assert!(val(pop[0].fitness).is_nan());
    let mut run = Run { current_gen: 0, best_of_gen_index: find_best(&pop), current_pop: pop };
    while !run.finished(&p, false) {
        run.advance(&p, &score, &mut rng);
    }
    assert_eq!(run.current_gen, 3);
    assert_eq!(run.best_of_gen_index, 0);
    assert_eq!(run.best_of_gen().tree, zero_by_zero);
}

#[test]
fn the_best_of_a_run_never_gets_worse() {
    let points = parabola();
    let score = |t: &Node| error_on(t, &points);
    let mut rng = StdRng::seed_from_u64(44);
    let p = params(60, 6, 0);
    let mut run = Run::start(&p, &score, &mut rng);
    let mut last = val(run.best_of_gen().fitness);
    for generation in 1..=30 {
        run.advance(&p, &score, &mut rng);
        assert_eq!(run.current_gen, generation);
        let now = val(run.best_of_gen().fitness);
        assert!(!(last < now));
        for ind in run.current_pop.iter() {
            assert!(height(&ind.tree) <= 6);
        }
        last = now;
    }
}

#[test]
fn a_run_with_a_negative_depth_bound_holds_leaves() {
    let points = line();
    let score = |t: &Node| error_on(t, &points);
    let mut rng = StdRng::seed_from_u64(45);
    let p = params(10, -1, 0);
    let mut run = Run::start(&p, &score, &mut rng);
    for _ in 0..5 {
        run.advance(&p, &score, &mut rng);
        for ind in run.current_pop.iter() {
            assert_eq!(height(&ind.tree), 0);
        }
    }
}

#[test]
fn the_depth_limit_leaves_room_for_the_node_count() {
    assert_eq!(DEPTH_LIMIT, 62);
}

#[test]
fn breed_by_each_operator() {
    let points = parabola();
    let score = |t: &Node| error_on(t, &points);
    let mut rng = StdRng::seed_from_u64(49);
    let p = params(30, 5, 0);
    let pop = init_pop(&p, &score, &mut rng);
    for _ in 0..50 {
        let copied = breed_by(Operator::Copy, &p, &pop, &score, &mut rng);
        assert!(pop.contains(&copied));
        for op in [Operator::Crossover, Operator::Mutate] {
            let child = breed_by(op, &p, &pop, &score, &mut rng);
            assert!(height(&child.tree) <= 5);
            assert_eq!(child.fitness.to_bits(), error_on(&child.tree, &points).to_bits());
        }
    }
}

#[test]
fn breed_by_follows_the_tournaments() {
    let points = line();
    let score = |t: &Node| error_on(t, &points);
    let p = params(30, 5, 0);
    let mut seed_rng = StdRng::seed_from_u64(50);
    let pop = init_pop(&p, &score, &mut seed_rng);
    let mut ours = StdRng::seed_from_u64(51);
    let mut theirs = StdRng::seed_from_u64(51);
    for _ in 0..50 {
        let first = tourney_pick(&p, &pop, &mut theirs);
        let second = tourney_pick(&p, &pop, &mut theirs);
        let expected = pop[first].crossover(&pop[second], 5, &score, &mut theirs);
        assert_eq!(breed_by(Operator::Crossover, &p, &pop, &score, &mut ours), expected);

        let first = tourney_pick(&p, &pop, &mut theirs);
        let expected = pop[first].mutate(5, &score, &mut theirs);
        assert_eq!(breed_by(Operator::Mutate, &p, &pop, &score, &mut ours), expected);

        let first = tourney_pick(&p, &pop, &mut theirs);
        assert_eq!(breed_by(Operator::Copy, &p, &pop, &score, &mut ours), pop[first]);
    }
}

#[test]
fn breed_draws_its_operator_first() {
    let points = line();
    let score = |t: &Node| error_on(t, &points);
    let p = params(30, 5, 0);
    let mut seed_rng = StdRng::seed_from_u64(52);
    let pop = init_pop(&p, &score, &mut seed_rng);
    let mut ours = StdRng::seed_from_u64(53);
    let mut theirs = StdRng::seed_from_u64(53);
    let mut seen = [false; 3];
    for _ in 0..300 {
        let draw: f64 = theirs.gen();
        let op = get_op(&p, num(draw));
        match op {
            Operator::Crossover => {
                assert!(draw < 0.9);
                seen[0] = true;
            }
            Operator::Mutate => {
                assert!(draw >= 0.9 && draw < 0.9 + 0.05);
                seen[1] = true;
            }
            Operator::Copy => {
                assert!(draw >= 0.9 + 0.05);
                seen[2] = true;
            }
        }
        let expected = breed_by(op, &p, &pop, &score, &mut theirs);
        assert_eq!(breed(&p, &pop, &score, &mut ours), expected);
    }
    assert_eq!(seen, [true; 3]);
}
