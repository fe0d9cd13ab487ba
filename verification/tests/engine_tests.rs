use gengen::engine::{
    breed, evaluate_all, initialize_population, recombine, reproduce, select_at, CHROMOSOME_MAX,
    CHROMOSOME_MIN, EPSILON, FITNESS_ONE, MAX_GENS, POP_SIZE,
};
use gengen::expr::Eval;
use gengen::{crossover, encode_expression, ga, select, Chromosome, Search, Step};
use rand::rngs::StdRng;
use rand::SeedableRng;

fn spelling(text: &str) -> Chromosome {
    let mut c = Chromosome::new();
    c.bits = encode_expression(text).unwrap();
    c
}

fn with_fitness(fitness: u128) -> Chromosome {
    let mut c = Chromosome::new();
    c.fitness = Some(fitness);
    c
}

fn random_genome(rng_state: &mut u64, len: usize) -> Chromosome {
    let mut c = Chromosome::new();
    for _ in 0..len {
        *rng_state ^= *rng_state << 13;
        *rng_state ^= *rng_state >> 7;
        *rng_state ^= *rng_state << 17;
        c.bits.push(*rng_state & 1 == 1);
    }
    c
}

#[test]
fn constants_have_their_values() {
    assert_eq!(MAX_GENS, 1000);
    assert_eq!(POP_SIZE, 500);
    assert_eq!(CHROMOSOME_MIN, 3);
    assert_eq!(CHROMOSOME_MAX, 101);
    assert_eq!(FITNESS_ONE, 1u128 << 64);
    assert_eq!(EPSILON, FITNESS_ONE / 10_000_000);
}

#[test]
fn fitness_is_one_on_a_hit() {
    let mut c = spelling("5 + 5");
    c.evaluate_fitness(10);
    assert_eq!(c.fitness, Some(FITNESS_ONE));
}

#[test]
fn fitness_is_one_over_one_plus_the_miss() {
    let mut c = spelling("5 + 5");
    c.evaluate_fitness(11);
    assert_eq!(c.fitness, Some(FITNESS_ONE / 2));
    c.evaluate_fitness(9);
    assert_eq!(c.fitness, Some(FITNESS_ONE / 2));
    c.evaluate_fitness(13);
    assert_eq!(c.fitness, Some(FITNESS_ONE / 4));
    c.evaluate_fitness(12);
    assert_eq!(c.fitness, Some(6148914691236517205));
    c.evaluate_fitness(-89);
    assert_eq!(c.fitness, Some(FITNESS_ONE / 100));
}

#[test]
fn fitness_is_zero_without_a_value() {
    for text in ["8 / 0", "3 +", ""] {
        let mut c = spelling(text);
        c.fitness = None;
        c.evaluate_fitness(10);
        assert_eq!(c.fitness, Some(0));
    }
    let mut raw = Chromosome::new();
    raw.bits = vec![true, false, true, false, false, false, true, true];
    raw.evaluate_fitness(3);
    assert_eq!(raw.fitness, Some(0));
}

#[test]
fn fitness_of_the_widest_miss_is_not_zero() {
    let mut c = spelling("0 - 9 * 9 * 9 * 9 * 9 * 9 * 9 * 9 * 9 * 9 * 9 * 9 * 9 * 9 * 9 * 9 * 9 * 9 * 9");
    c.evaluate_fitness(i64::MAX);
    assert!(c.fitness.unwrap() >= 1);
    assert!(c.fitness.unwrap() < 3);
}

#[test]
fn fitness_never_grows_with_the_miss() {
    let mut last = FITNESS_ONE + 1;
    for target in 7..60 {
        let mut c = spelling("7");
        c.evaluate_fitness(target);
        let f = c.fitness.unwrap();
        assert!(f <= last);
        assert!(f <= FITNESS_ONE);
        assert_eq!(f == FITNESS_ONE, target == 7);
        last = f;
    }
}

#[test]
fn evaluating_leaves_the_bits() {
    let mut c = spelling("2 * 3");
    let before = c.bits.clone();
    c.evaluate_fitness(6);
    assert_eq!(c.bits, before);
}

#[test]
fn mutate_with_turns_the_marked_bits() {
    let mut c = Chromosome::new();
    c.bits = vec![true, true, false, false];
    c.fitness = Some(5);
    assert!(c.mutate_with(&vec![false, true, false, true]));
    assert_eq!(c.bits, vec![true, false, false, true]);
    assert_eq!(c.fitness, Some(5));
    assert!(!c.mutate_with(&vec![false, false, false, false]));
    assert_eq!(c.bits, vec![true, false, false, true]);
}

#[test]
fn mutate_turns_few_bits() {
    let mut rng = StdRng::seed_from_u64(7);
    let mut c = Chromosome::new();
    c.bits = vec![false; 20_000];
    let mutated = c.mutate(&mut rng);
    let turned = c.bits.iter().filter(|b| **b).count();
    assert_eq!(c.bits.len(), 20_000);
    assert_eq!(mutated, turned > 0);
    assert!(turned >= 50, "turned {}", turned);
    assert!(turned <= 800, "turned {}", turned);
}

#[test]
fn mutate_tells_whether_it_changed_anything() {
    let mut rng = StdRng::seed_from_u64(11);
    for _ in 0..300 {
        let mut c = Chromosome::new();
        c.bits = vec![true; 40];
        let mutated = c.mutate(&mut rng);
        assert_eq!(c.bits.len(), 40);
        assert_eq!(mutated, c.bits != vec![true; 40]);
    }
}

#[test]
fn pad_fills_up_the_last_codon() {
    let mut rng = StdRng::seed_from_u64(3);
    for len in 0..13usize {
        let mut c = Chromosome::new();
        c.bits = vec![true; len];
        c.pad(&mut rng);
        assert_eq!(c.bits.len() % 4, 0);
        assert!(c.bits.len() >= len);
        assert!(c.bits.len() < len + 4);
        assert_eq!(&c.bits[..len], &vec![true; len][..]);
    }
}

#[test]
fn recombine_swaps_the_tails() {
    let mut a = Chromosome::new();
    a.bits = vec![true; 6];
    let mut b = Chromosome::new();
    b.bits = vec![false; 4];
    recombine(&mut a, &mut b, 2);
    assert_eq!(a.bits, vec![true, true, false, false]);
    assert_eq!(b.bits, vec![false, false, true, true, true, true]);
}

#[test]
fn recombine_beyond_the_shorter_genome() {
    let mut a = Chromosome::new();
    a.bits = vec![true; 6];
    let mut b = Chromosome::new();
    b.bits = vec![false; 3];
    recombine(&mut a, &mut b, 5);
    assert_eq!(a.bits, vec![true, true, true, true, true]);
    assert_eq!(b.bits, vec![false, false, false, true]);
}

#[test]
fn recombine_at_zero_swaps_the_genomes() {
    let mut a = Chromosome::new();
    a.bits = vec![true, false, true];
    a.fitness = Some(1);
    let mut b = Chromosome::new();
    b.bits = vec![false, false];
    b.fitness = Some(2);
    recombine(&mut a, &mut b, 0);
    assert_eq!(a.bits, vec![false, false]);
    assert_eq!(b.bits, vec![true, false, true]);
    assert_eq!(a.fitness, Some(1));
    assert_eq!(b.fitness, Some(2));
}

#[test]
fn crossover_never_loses_bits() {
    let mut rng = StdRng::seed_from_u64(21);
    let mut state = 88172645463325252u64;
    let mut crossed = 0;
    for round in 0..400usize {
        let mut a = random_genome(&mut state, 4 * (round % 9));
        let mut b = random_genome(&mut state, 4 * (round % 7) + round % 3);
        let (a0, b0) = (a.bits.clone(), b.bits.clone());
        if crossover(&mut a, &mut b, &mut rng) {
            crossed += 1;
            assert_eq!(a.bits.len() % 4, 0);
            assert_eq!(b.bits.len() % 4, 0);
            assert!(a.bits.len() + b.bits.len() >= a0.len() + b0.len());
            assert!(a.bits.len() + b.bits.len() < a0.len() + b0.len() + 8);
            let cut = (0..a0.len().max(b0.len())).find(|cut| {
                let c1 = (*cut).min(a0.len());
                let c2 = (*cut).min(b0.len());
                let child1: Vec<bool> = a0[..c1].iter().chain(b0[c2..].iter()).cloned().collect();
                let child2: Vec<bool> = b0[..c2].iter().chain(a0[c1..].iter()).cloned().collect();
                a.bits.starts_with(&child1)
                    && b.bits.starts_with(&child2)
                    && a.bits.len() < child1.len() + 4
                    && b.bits.len() < child2.len() + 4
            });
            assert!(cut.is_some());
        } else {
            assert_eq!(a.bits, a0);
            assert_eq!(b.bits, b0);
        }
    }
    assert!(crossed > 200, "crossed {}", crossed);
    assert!(crossed < 340, "crossed {}", crossed);
}

#[test]
fn crossover_of_two_empty_genomes_does_nothing() {
    let mut rng = StdRng::seed_from_u64(5);
    for _ in 0..50 {
        let mut a = Chromosome::new();
        let mut b = Chromosome::new();
        assert!(!crossover(&mut a, &mut b, &mut rng));
        assert!(a.bits.is_empty());
        assert!(b.bits.is_empty());
    }
}

#[test]
fn select_at_finds_the_first_genome_that_meets_the_draw() {
    let population = vec![with_fitness(10), with_fitness(0), with_fitness(5), with_fitness(20)];
    assert_eq!(select_at(&population, 0), Some(0));
    assert_eq!(select_at(&population, 1), Some(0));
    assert_eq!(select_at(&population, 10), Some(0));
    assert_eq!(select_at(&population, 11), Some(2));
    assert_eq!(select_at(&population, 15), Some(2));
    assert_eq!(select_at(&population, 16), Some(3));
    assert_eq!(select_at(&population, 35), Some(3));
    assert_eq!(select_at(&population, 36), None);
    assert_eq!(select_at(&vec![], 0), None);
}

#[test]
fn select_at_takes_the_first_genome_when_nothing_has_fitness() {
    let population = vec![with_fitness(0), with_fitness(0), with_fitness(0)];
    assert_eq!(select_at(&population, 0), Some(0));
    assert_eq!(select_at(&population, 1), None);
}

#[test]
fn select_returns_a_genome_of_the_population() {
    let mut rng = StdRng::seed_from_u64(99);
    let mut population = Vec::new();
    for (i, f) in [3u128, 0, 1, 6].iter().enumerate() {
        let mut c = with_fitness(*f);
        c.bits = vec![i % 2 == 1, i >= 2];
        population.push(c);
    }
    let mut seen = [0usize; 4];
    for _ in 0..2000 {
        let c = select(&population, 10, &mut rng).unwrap();
        let i = population.iter().position(|p| p.bits == c.bits).unwrap();
        assert_eq!(c.fitness, population[i].fitness);
        seen[i] += 1;
    }
    // A genome without fitness is never the first to meet a draw.
    assert_eq!(seen[1], 0);
    assert!(seen[0] > seen[2]);
    assert!(seen[3] > seen[0]);
    assert!(seen[2] > 0);
}

#[test]
fn select_without_any_fitness_takes_the_first_genome() {
    let mut rng = StdRng::seed_from_u64(1);
    let mut first = with_fitness(0);
    first.bits = vec![true];
    let population = vec![first, with_fitness(0)];
    for _ in 0..20 {
        let c = select(&population, 0, &mut rng).unwrap();
        assert_eq!(c.bits, vec![true]);
    }
}

#[test]
fn select_from_nothing_is_nothing() {
    let mut rng = StdRng::seed_from_u64(1);
    assert!(select(&vec![], 0, &mut rng).is_none());
}

#[test]
fn first_generation_has_the_right_sizes() {
    let mut rng = StdRng::seed_from_u64(2024);
    let population = initialize_population(&mut rng);
    assert_eq!(population.len(), 500);
    let mut lengths = std::collections::BTreeSet::new();
    let mut ones = 0usize;
    let mut all = 0usize;
    for c in &population {
        assert_eq!(c.bits.len() % 4, 0);
        assert!(c.bits.len() >= 12);
        assert!(c.bits.len() <= 400);
        lengths.insert(c.bits.len());
        ones += c.bits.iter().filter(|b| **b).count();
        all += c.bits.len();
    }
    assert!(population.iter().all(|c| c.fitness.is_none()));
    assert!(lengths.len() > 50);
    assert!(ones * 10 > all * 4);
    assert!(ones * 10 < all * 6);
}

#[test]
fn evaluate_all_stops_at_the_first_hit() {
    let mut population = vec![spelling("1 + 1"), spelling("2 * 5"), spelling("5 + 5")];
    for c in population.iter_mut() {
        c.fitness = None;
    }
    let (hit, _) = evaluate_all(&mut population, 10);
    assert_eq!(hit, Some(1));
    assert_eq!(population[0].fitness, Some(FITNESS_ONE / 9));
    assert_eq!(population[1].fitness, Some(FITNESS_ONE));
    assert_eq!(population[2].fitness, None);
}

#[test]
fn evaluate_all_adds_up_the_fitness() {
    let mut population = vec![spelling("1 + 1"), spelling("8 / 0"), spelling("9")];
    let (hit, total) = evaluate_all(&mut population, 10);
    assert_eq!(hit, None);
    assert_eq!(total, FITNESS_ONE / 9 + FITNESS_ONE / 2);
    assert_eq!(population[1].fitness, Some(0));
}

#[test]
fn next_generation_is_full_and_repaired() {
    let mut rng = StdRng::seed_from_u64(31);
    let mut population = initialize_population(&mut rng);
    let (hit, total) = evaluate_all(&mut population, 1_000_000);
    assert_eq!(hit, None);
    let next = reproduce(&population, total, &mut rng);
    assert_eq!(next.len(), 500);
    for c in &next {
        assert_eq!(c.bits.len() % 4, 0);
        let mut again = c.clone();
        again.correct();
        assert_eq!(again.bits, c.bits);
    }
}

#[test]
fn ga_finds_ten() {
    let mut rng = StdRng::seed_from_u64(42);
    let (generations, solution) = ga(10, &mut rng);
    assert!(generations >= 1);
    assert!(generations <= 1000);
    let genome = solution.expect("a solution within the cap");
    assert_eq!(Eval::new().eval(&genome.decode()), Some(10));
    assert_eq!(genome.fitness, Some(FITNESS_ONE));
}

#[test]
fn ga_is_fixed_by_the_seed() {
    let (g1, s1) = ga(42, &mut StdRng::seed_from_u64(5));
    let (g2, s2) = ga(42, &mut StdRng::seed_from_u64(5));
    assert_eq!(g1, g2);
    assert_eq!(s1.map(|c| c.bits), s2.map(|c| c.bits));
}

#[test]
fn ga_result_evaluates_to_the_target() {
    for (seed, target) in [(1u64, 0i64), (2, 7), (3, 24), (4, -5)] {
        let (generations, solution) = ga(target, &mut StdRng::seed_from_u64(seed));
        match solution {
            Some(genome) => {
                assert!(generations >= 1 && generations <= 1000);
                assert_eq!(Eval::new().eval(&genome.decode()), Some(target));
            }
            None => assert_eq!(generations, 1000),
        }
    }
}

#[test]
fn children_are_repaired_and_keep_a_parent_fitness() {
    let mut rng = StdRng::seed_from_u64(77);
    let mut population = vec![spelling("1 + 2"), spelling("3 * 4 - 5"), spelling("9 / 3")];
    let (hit, total) = evaluate_all(&mut population, 100);
    assert_eq!(hit, None);
    let fitnesses: Vec<Option<u128>> = population.iter().map(|c| c.fitness).collect();
    for _ in 0..200 {
        let (c1, c2) = breed(&population, total, &mut rng);
        for c in [&c1, &c2] {
            assert_eq!(c.bits.len() % 4, 0);
            assert!(fitnesses.contains(&c.fitness));
            let mut again = c.clone();
            again.correct();
            assert_eq!(again.bits, c.bits);
        }
    }
}

#[test]
fn select_beyond_the_whole_fitness_finds_nothing() {
    let mut rng = StdRng::seed_from_u64(8);
    let mut only = with_fitness(1);
    only.bits = vec![true, true];
    let population = vec![only];
    let mut missed = 0;
    for _ in 0..200 {
        match select(&population, 1000, &mut rng) {
            Some(c) => assert_eq!(c.bits, vec![true, true]),
            None => missed += 1,
        }
    }
    assert!(missed > 150);
}

#[test]
fn a_search_starts_with_a_first_generation() {
    let search = Search::new(&mut StdRng::seed_from_u64(13));
    assert_eq!(search.generation(), 0);
    assert_eq!(search.population().len(), 500);
    for c in search.population() {
        assert_eq!(c.fitness, None);
        assert_eq!(c.bits.len() % 4, 0);
        assert!(c.bits.len() >= 12 && c.bits.len() <= 400);
    }
}

#[test]
fn a_search_advances_generation_by_generation() {
    let mut rng = StdRng::seed_from_u64(42);
    let mut search = Search::new(&mut rng);
    let mut steps = 0;
    loop {
        let before: Vec<Vec<bool>> = search.population().iter().map(|c| c.bits.clone()).collect();
        let (next, step) = search.advance(10, &mut rng);
        search = next;
        steps += 1;
        assert_eq!(search.population().len(), 500);
        if !matches!(step, Step::GaveUp) {
            assert_eq!(search.generation(), steps);
        }
        match step {
            Step::Bred => {
                for c in search.population() {
                    let mut again = c.clone();
                    again.correct();
                    assert_eq!(again.bits, c.bits);
                }
            }
            Step::Found(c) => {
                assert_eq!(Eval::new().eval(&c.decode()), Some(10));
                assert_eq!(c.fitness, Some(FITNESS_ONE));
                let after: Vec<Vec<bool>> =
                    search.population().iter().map(|c| c.bits.clone()).collect();
                assert_eq!(before, after);
                let at = search.population().iter().position(|p| p.bits == c.bits).unwrap();
                for earlier in &search.population()[..at] {
                    assert!(earlier.fitness.unwrap() < FITNESS_ONE);
                }
                assert_eq!(search.population()[at].fitness, Some(FITNESS_ONE));
                break;
            }
            Step::GaveUp => panic!("this seed finds ten before the cap"),
        }
    }
}

#[test]
fn a_search_that_gave_up_stays_where_it_is() {
    let mut rng = StdRng::seed_from_u64(17);
    let mut search = Search::new(&mut rng);
    let mut steps = 0;
    loop {
        let (next, step) = search.advance(i64::MIN, &mut rng);
        search = next;
        steps += 1;
        match step {
            Step::Bred => assert_eq!(search.generation(), steps),
            Step::Found(_) => panic!("the least number is not found"),
            Step::GaveUp => break,
        }
    }
    assert_eq!(steps, 1001);
    assert_eq!(search.generation(), 1000);
    let bits: Vec<Vec<bool>> = search.population().iter().map(|c| c.bits.clone()).collect();
    let (next, step) = search.advance(i64::MIN, &mut rng);
    assert!(matches!(step, Step::GaveUp));
    assert_eq!(next.generation(), 1000);
    let after: Vec<Vec<bool>> = next.population().iter().map(|c| c.bits.clone()).collect();
    assert_eq!(bits, after);
}

#[test]
fn a_search_gives_up_after_the_cap() {
    let mut rng = StdRng::seed_from_u64(19);
    let (generations, solution) = ga(i64::MIN, &mut rng);
    assert_eq!(generations, 1000);
    assert!(solution.is_none());
}
