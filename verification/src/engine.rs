//! The search: fitness, selection, crossover, mutation, and the run.

use crate::codec::{
    alphabet, codons, decoded, is_alternating, lemma_symbols_in_alphabet, lemma_words_of_text,
    pad_len, repaired, singles, symbols, Chromosome,
};
use crate::expr::{classify, classify_all, lex, magnitude, value_of, Eval};
use crate::random::{draw_below, draw_bit, draw_ratio};
use crate::text::{is_digit, is_numeral, numeral_value, words};
use rand::rngs::StdRng;
use vstd::prelude::*;

verus! {

/// The number of generations after which the search gives up.
pub const MAX_GENS: usize = 1000;

/// The number of genomes in a population.
pub const POP_SIZE: usize = 500;

/// The least number of codons in a genome of the first generation.
pub const CHROMOSOME_MIN: usize = 3;

/// The number of codons that a genome of the first generation stays below.
pub const CHROMOSOME_MAX: usize = 101;

/// The fitness 1, in fixed point: two to the power 64.
pub const FITNESS_ONE: u128 = 0x1_0000_0000_0000_0000;

/// How far below 1 a fitness may lie and still count as a hit: a ten
/// millionth, in fixed point.
pub const EPSILON: u128 = 1_844_674_407_370;

/// The fitness of an expression whose value misses the target by `d`: one
/// over one plus `d`, in fixed point and rounded down.
pub open spec fn fitness_at(d: nat) -> nat {
    FITNESS_ONE as nat / (1 + d)
}

/// The fitness of an evaluation with respect to a target: zero when there is
/// no value, and else the fitness at the distance of the value from the
/// target.
pub open spec fn fitness_of(value: Option<i64>, target: i64) -> nat {
    match value {
        Some(v) => fitness_at(magnitude(v - target) as nat),
        None => 0,
    }
}

/// Fitness never grows with the distance from the target. It is 1 at
/// distance zero and nowhere else, it is at most 1, and within the distances
/// that two `i64` values can have it is never zero.
pub proof fn lemma_fitness(d1: nat, d2: nat)
    requires
        d1 <= d2,
    ensures
        fitness_at(d2) <= fitness_at(d1),
        fitness_at(d1) <= FITNESS_ONE,
        fitness_at(d1) == FITNESS_ONE <==> d1 == 0,
        d1 < FITNESS_ONE ==> fitness_at(d1) >= 1,
        d1 >= 1 ==> fitness_at(d1) + EPSILON < FITNESS_ONE,
{
    let one = FITNESS_ONE as int;
    let a = 1 + d1 as int;
    let b = 1 + d2 as int;
    assert(one / 1 == one);
    assert(one / 2 == 0x8000_0000_0000_0000);
    assert(one / one == 1);
    vstd::arithmetic::div_mod::lemma_div_is_ordered_by_denominator(one, a, b);
    vstd::arithmetic::div_mod::lemma_div_is_ordered_by_denominator(one, 1, a);
    if d1 >= 1 {
        vstd::arithmetic::div_mod::lemma_div_is_ordered_by_denominator(one, 2, a);
    }
    if d1 < FITNESS_ONE {
        vstd::arithmetic::div_mod::lemma_div_is_ordered_by_denominator(one, a, one);
    }
}

/// The fitness of an evaluation is 1 exactly when the value is the target,
/// and zero when there is no value.
pub proof fn lemma_fitness_of(value: Option<i64>, target: i64)
    ensures
        fitness_of(value, target) <= FITNESS_ONE,
        fitness_of(value, target) == FITNESS_ONE <==> value == Some(target),
        fitness_of(value, target) + EPSILON >= FITNESS_ONE <==> value == Some(target),
        value is None ==> fitness_of(value, target) == 0,
        value is Some ==> fitness_of(value, target) >= 1,
{
    match value {
        Some(v) => {
            let d = magnitude(v - target) as nat;
            lemma_fitness(d, d);
        },
        None => {},
    }
}

/// The text that a genome spells always splits into tokens: its words are
/// single digits and operators.
pub proof fn lemma_decoded_lexes(bits: Seq<bool>)
    ensures
        lex(decoded(bits)) is Some,
{
    let cs = codons(bits);
    lemma_words_of_text(cs);
    lemma_symbols_in_alphabet(cs);
    let ws = words(decoded(bits));
    lemma_singles_classify(symbols(cs), ws.len() as int);
}

/// Each of the first `n` symbols, as a word of its own, has a token.
proof fn lemma_singles_classify(cs: Seq<char>, n: int)
    requires
        0 <= n <= cs.len(),
        forall|i: int|
            0 <= i < cs.len() ==> exists|v: int|
                0 <= v < 14 && #[trigger] cs[i] == #[trigger] alphabet()[v],
    ensures
        classify_all(singles(cs), n) is Some,
    decreases n,
{
    if n > 0 {
        lemma_singles_classify(cs, n - 1);
        let c = cs[n - 1];
        let w = singles(cs)[n - 1];
        assert(w == seq![c]);
        let v = choose|v: int| 0 <= v < 14 && cs[n - 1] == #[trigger] alphabet()[v];
        assert(c == alphabet()[v]);
        if v < 10 {
            assert(is_digit(c));
            assert(w[0] == c);
            assert(is_numeral(w));
            assert(w.drop_last().len() == 0);
            assert(numeral_value(w.drop_last()) == 0);
            assert(numeral_value(w) < 10);
            assert(classify(w) is Some);
        } else {
            assert(w[0] == c);
            assert(classify(w) is Some);
        }
    }
}

impl Chromosome {
    /// Evaluates the expression that the genome spells and sets the fitness
    /// by how far its value lies from `target`.
    pub fn evaluate_fitness(&mut self, target: i64)
        ensures
            final(self).bits@ == old(self).bits@,
            final(self).fitness == Some(
                fitness_of(value_of(decoded(old(self).bits@)), target) as u128,
            ),
            final(self).fitness->0 <= FITNESS_ONE,
    {
        let eval = Eval::new();
        let text = self.decode();
        proof {
            lemma_decoded_lexes(self.bits@);
            lemma_fitness_of(value_of(decoded(self.bits@)), target);
        }
        self.fitness = match eval.eval(text.as_str()) {
            Some(val) => {
                let gap: i128 = val as i128 - target as i128;
                let delta: u128 = if gap < 0 {
                    (-gap) as u128
                } else {
                    gap as u128
                };
                Some(FITNESS_ONE / (1 + delta))
            },
            None => Some(0),
        };
    }
}

/// The bits of a genome after the bits marked in `flips` have been turned.
pub open spec fn flipped(bits: Seq<bool>, flips: Seq<bool>) -> Seq<bool>
    recommends
        flips.len() == bits.len(),
{
    Seq::new(bits.len(), |i: int| bits[i] != flips[i])
}

/// The first child of a crossover at `cut`: the start of `a` up to the cut,
/// then the rest of `b` from the cut on. A cut beyond the end of a genome
/// falls on its end.
pub open spec fn crossed(a: Seq<bool>, b: Seq<bool>, cut: int) -> Seq<bool> {
    a.take(if cut < a.len() { cut } else { a.len() as int }) + b.skip(
        if cut < b.len() {
            cut
        } else {
            b.len() as int
        },
    )
}

/// Whether `whole` is `start` followed by just as many bits as bring its
/// length to a multiple of four.
pub open spec fn is_padding_of(whole: Seq<bool>, start: Seq<bool>) -> bool {
    &&& whole.len() == start.len() + pad_len(start.len())
    &&& whole.take(start.len() as int) == start
}

/// The two children of a crossover have, together, as many bits as the two
/// parents.
pub proof fn lemma_crossed_len(a: Seq<bool>, b: Seq<bool>, cut: int)
    requires
        0 <= cut,
    ensures
        crossed(a, b, cut).len() + crossed(b, a, cut).len() == a.len() + b.len(),
{
}

impl Chromosome {
    /// Turns the bits that `flips` marks. Tells whether any bit was turned.
    pub fn mutate_with(&mut self, flips: &Vec<bool>) -> (mutated: bool)
        requires
            flips@.len() == old(self).bits@.len(),
        ensures
            final(self).bits@ == flipped(old(self).bits@, flips@),
            final(self).fitness == old(self).fitness,
            mutated == exists|i: int| 0 <= i < flips@.len() && flips@[i],
    {
        let mut mutated = false;
        let mut i: usize = 0;
        while i < self.bits.len()
            invariant
                i <= self.bits@.len(),
                self.bits@.len() == old(self).bits@.len(),
                flips@.len() == self.bits@.len(),
                self.fitness == old(self).fitness,
                forall|k: int| 0 <= k < i ==> self.bits@[k] == (old(self).bits@[k] != flips@[k]),
                forall|k: int| i <= k < self.bits@.len() ==> self.bits@[k] == old(self).bits@[k],
                mutated == exists|k: int| 0 <= k < i && flips@[k],
            decreases self.bits@.len() - i,
        {
            if flips[i] {
                let turned = !self.bits[i];
                self.bits.set(i, turned);
                mutated = true;
            }
            i += 1;
        }
        proof {
            assert(self.bits@ =~= flipped(old(self).bits@, flips@));
        }
        mutated
    }

    /// Turns each bit with a chance of one in a hundred. Tells whether any
    /// bit was turned.
    pub fn mutate(&mut self, rng: &mut StdRng) -> (mutated: bool)
        ensures
            final(self).bits@.len() == old(self).bits@.len(),
            final(self).fitness == old(self).fitness,
            mutated == (final(self).bits@ != old(self).bits@),
    {
        let mut flips: Vec<bool> = Vec::new();
        while flips.len() < self.bits.len()
            invariant
                flips@.len() <= self.bits@.len(),
            decreases self.bits@.len() - flips@.len(),
        {
            flips.push(draw_ratio(rng, 1, 100));
        }
        let mutated = self.mutate_with(&flips);
        proof {
            if mutated {
                let i = choose|i: int| 0 <= i < flips@.len() && flips@[i];
                assert(self.bits@[i] != old(self).bits@[i]);
            } else {
                assert(self.bits@ =~= old(self).bits@);
            }
        }
        mutated
    }

    /// Adds random bits until the number of bits is a multiple of four.
    pub fn pad(&mut self, rng: &mut StdRng)
        ensures
            is_padding_of(final(self).bits@, old(self).bits@),
            final(self).bits@.len() % 4 == 0,
            final(self).fitness == old(self).fitness,
    {
        let missing: usize = (4 - self.bits.len() % 4) % 4;
        let mut added: usize = 0;
        while added < missing
            invariant
                added <= missing < 4,
                missing == pad_len(old(self).bits@.len()),
                self.bits@.len() == old(self).bits@.len() + added,
                self.bits@.take(old(self).bits@.len() as int) == old(self).bits@,
                self.fitness == old(self).fitness,
            decreases missing - added,
        {
            let ghost before = self.bits@;
            let bit = draw_bit(rng);
            self.bits.push(bit);
            proof {
                let n = old(self).bits@.len() as int;
                assert(self.bits@.take(n) =~= before.take(n));
            }
            added += 1;
        }
    }
}

/// Crosses two genomes over at `cut`: each keeps its start up to the cut and
/// takes the rest of the other from the cut on.
pub fn recombine(c1: &mut Chromosome, c2: &mut Chromosome, cut: usize)
    ensures
        final(c1).bits@ == crossed(old(c1).bits@, old(c2).bits@, cut as int),
        final(c2).bits@ == crossed(old(c2).bits@, old(c1).bits@, cut as int),
        final(c1).fitness == old(c1).fitness,
        final(c2).fitness == old(c2).fitness,
{
    let len1 = c1.bits.len();
    let len2 = c2.bits.len();
    let cut1 = if cut < len1 { cut } else { len1 };
    let cut2 = if cut < len2 { cut } else { len2 };
    let mut acc1: Vec<bool> = Vec::new();
    let mut acc2: Vec<bool> = Vec::new();
    let mut i: usize = 0;
    while i < cut1
        invariant
            i <= cut1 <= c1.bits@.len(),
            acc1@ == c1.bits@.take(i as int),
        decreases cut1 - i,
    {
        acc1.push(c1.bits[i]);
        proof {
            assert(acc1@ =~= c1.bits@.take(i + 1));
        }
        i += 1;
    }
    i = 0;
    while i < cut2
        invariant
            i <= cut2 <= c2.bits@.len(),
            acc2@ == c2.bits@.take(i as int),
        decreases cut2 - i,
    {
        acc2.push(c2.bits[i]);
        proof {
            assert(acc2@ =~= c2.bits@.take(i + 1));
        }
        i += 1;
    }
    i = cut2;
    while i < len2
        invariant
            cut2 <= i <= len2,
            len2 == c2.bits@.len(),
            acc1@ == c1.bits@.take(cut1 as int) + c2.bits@.subrange(cut2 as int, i as int),
        decreases len2 - i,
    {
        acc1.push(c2.bits[i]);
        proof {
            assert(acc1@ =~= c1.bits@.take(cut1 as int) + c2.bits@.subrange(cut2 as int, i + 1));
        }
        i += 1;
    }
    i = cut1;
    while i < len1
        invariant
            cut1 <= i <= len1,
            len1 == c1.bits@.len(),
            acc2@ == c2.bits@.take(cut2 as int) + c1.bits@.subrange(cut1 as int, i as int),
        decreases len1 - i,
    {
        acc2.push(c1.bits[i]);
        proof {
            assert(acc2@ =~= c2.bits@.take(cut2 as int) + c1.bits@.subrange(cut1 as int, i + 1));
        }
        i += 1;
    }
    proof {
        assert(c2.bits@.subrange(cut2 as int, len2 as int) =~= c2.bits@.skip(cut2 as int));
        assert(c1.bits@.subrange(cut1 as int, len1 as int) =~= c1.bits@.skip(cut1 as int));
    }
    c1.bits = acc1;
    c2.bits = acc2;
}

/// Whether the genomes `after1` and `after2` may come of `before1` and
/// `before2` by a crossover at `cut`: each is a child of the cut, padded to
/// a whole number of codons.
pub open spec fn is_crossover_at(
    before1: Seq<bool>,
    before2: Seq<bool>,
    after1: Seq<bool>,
    after2: Seq<bool>,
    cut: int,
) -> bool {
    &&& 0 <= cut
    &&& cut < before1.len() || cut < before2.len()
    &&& is_padding_of(after1, crossed(before1, before2, cut))
    &&& is_padding_of(after2, crossed(before2, before1, cut))
}

/// Crosses two genomes over, with a chance of seven in ten, at a cut drawn
/// from the places of the longer one, and pads both children with random
/// bits to a whole number of codons. Tells whether it did. Two genomes
/// without bits have no place to cut and stay as they are.
pub fn crossover(c1: &mut Chromosome, c2: &mut Chromosome, rng: &mut StdRng) -> (crossed_over: bool)
    ensures
        final(c1).fitness == old(c1).fitness,
        final(c2).fitness == old(c2).fitness,
        !crossed_over ==> final(c1).bits@ == old(c1).bits@ && final(c2).bits@ == old(c2).bits@,
        crossed_over ==> exists|cut: int| #[trigger]
            is_crossover_at(
                old(c1).bits@,
                old(c2).bits@,
                final(c1).bits@,
                final(c2).bits@,
                cut,
            ),
        crossed_over ==> final(c1).bits@.len() % 4 == 0 && final(c2).bits@.len() % 4 == 0,
        final(c1).bits@.len() + final(c2).bits@.len() >= old(c1).bits@.len() + old(c2).bits@.len(),
{
    let len1 = c1.bits.len();
    let len2 = c2.bits.len();
    let longer = if len1 < len2 { len2 } else { len1 };
    if draw_ratio(rng, 7, 10) && longer > 0 {
        let cut = draw_below(rng, longer as u128) as usize;
        recombine(c1, c2, cut);
        c1.pad(rng);
        c2.pad(rng);
        proof {
            lemma_crossed_len(old(c1).bits@, old(c2).bits@, cut as int);
            assert(is_crossover_at(
                old(c1).bits@,
                old(c2).bits@,
                c1.bits@,
                c2.bits@,
                cut as int,
            ));
        }
        true
    } else {
        false
    }
}

/// The weight that a genome has in selection: its fitness, or nothing when
/// it has none.
pub open spec fn weight(c: Chromosome) -> nat {
    match c.fitness {
        Some(f) => f as nat,
        None => 0,
    }
}

/// The weights of the first `n` genomes together.
pub open spec fn total_weight(population: Seq<Chromosome>, n: int) -> nat
    decreases n,
{
    if n <= 0 {
        0
    } else {
        total_weight(population, n - 1) + weight(population[n - 1])
    }
}

/// The weights of the genomes up to the one at `i`, that one included.
pub open spec fn weight_through(population: Seq<Chromosome>, i: int) -> nat {
    total_weight(population, i + 1)
}

/// Whether the genome at `i` is the first whose weight, added to the weights
/// of all before it, meets or exceeds `draw`.
pub open spec fn is_chosen(population: Seq<Chromosome>, draw: nat, i: int) -> bool {
    &&& 0 <= i < population.len()
    &&& weight_through(population, i) >= draw
    &&& forall|j: int| 0 <= j < i ==> #[trigger] weight_through(population, j) < draw
}

/// Walks the population, adding up fitness, and gives the place of the
/// first genome at which the sum meets or exceeds `draw`; nothing when the
/// fitness of all genomes together stays below `draw`.
pub fn select_at(population: &Vec<Chromosome>, draw: u128) -> (place: Option<usize>)
    requires
        forall|i: int| 0 <= i < population@.len() ==> (#[trigger] population@[i]).fitness is Some,
    ensures
        match place {
            Some(i) => is_chosen(population@, draw as nat, i as int),
            None => forall|j: int|
                0 <= j < population@.len() ==> #[trigger] weight_through(population@, j) < draw,
        },
        total_weight(population@, population@.len() as int) >= draw && population@.len() > 0
            ==> place is Some,
{
    let mut rest: u128 = draw;
    let mut i: usize = 0;
    while i < population.len()
        invariant
            i <= population@.len(),
            rest + total_weight(population@, i as int) == draw,
            forall|j: int| 0 <= j < i ==> #[trigger] weight_through(population@, j) < draw,
            forall|k: int| 0 <= k < population@.len() ==> (#[trigger] population@[k]).fitness is Some,
        decreases population@.len() - i,
    {
        let f = match population[i].fitness {
            Some(f) => f,
            None => 0,
        };
        if f >= rest {
            return Some(i);
        }
        rest = rest - f;
        i += 1;
    }
    proof {
        if population@.len() > 0 {
            assert(weight_through(population@, population@.len() - 1) < draw);
        }
    }
    None
}

/// Whether `draw` may be drawn for a population whose fitness is
/// `total_fitness` in all: a number below it, or zero when it is zero.
pub open spec fn is_draw(draw: nat, total_fitness: nat) -> bool {
    draw < total_fitness || draw == 0
}

/// Whether `draw` lies beyond the fitness of the whole population: no genome
/// meets it.
pub open spec fn is_beyond(population: Seq<Chromosome>, draw: nat) -> bool {
    forall|j: int| 0 <= j < population.len() ==> #[trigger] weight_through(population, j) < draw
}

/// Whether `c` may be selected from a population whose fitness is
/// `total_fitness` in all: it is a copy of the genome chosen by some draw.
pub open spec fn is_selection(population: Seq<Chromosome>, total_fitness: nat, c: Chromosome) -> bool {
    exists|draw: nat, i: int|
        is_draw(draw, total_fitness) && #[trigger] is_chosen(population, draw, i) && c.bits@
            == population[i].bits@ && c.fitness == population[i].fitness
}

/// Selects a genome with a chance in proportion to its fitness: draws a
/// number below `total_fitness`, and gives a copy of the first genome at
/// which the fitness added up so far meets or exceeds the draw.
pub fn select(population: &Vec<Chromosome>, total_fitness: u128, rng: &mut StdRng) -> (chosen:
    Option<Chromosome>)
    requires
        forall|i: int| 0 <= i < population@.len() ==> (#[trigger] population@[i]).fitness is Some,
    ensures
        match chosen {
            Some(c) => is_selection(population@, total_fitness as nat, c),
            None => exists|draw: nat|
                is_draw(draw, total_fitness as nat) && #[trigger] is_beyond(population@, draw),
        },
        population@.len() > 0 && total_fitness <= total_weight(
            population@,
            population@.len() as int,
        ) ==> chosen is Some,
{
    let draw = if total_fitness == 0 {
        0
    } else {
        draw_below(rng, total_fitness)
    };
    match select_at(population, draw) {
        Some(i) => {
            let c = population[i].clone();
            proof {
                assert(is_draw(draw as nat, total_fitness as nat));
                assert(is_chosen(population@, draw as nat, i as int));
            }
            Some(c)
        },
        None => {
            proof {
                assert(is_draw(draw as nat, total_fitness as nat));
                assert(is_beyond(population@, draw as nat));
            }
            None
        },
    }
}

/// Whether a genome is in repaired form: whole codons only, digits and
/// operators in turn.
pub open spec fn is_repaired(c: Chromosome) -> bool {
    c.bits@.len() % 4 == 0 && is_alternating(codons(c.bits@))
}

/// Whether a genome spells an expression whose value is `target`.
pub open spec fn is_hit(c: Chromosome, target: i64) -> bool {
    value_of(decoded(c.bits@)) == Some(target)
}

/// Whether a genome carries the fitness that its expression has for
/// `target`.
pub open spec fn is_evaluated(c: Chromosome, target: i64) -> bool {
    c.fitness == Some(fitness_of(value_of(decoded(c.bits@)), target) as u128)
}

/// A first generation: `POP_SIZE` genomes of random bits, each of a random
/// number of codons from `CHROMOSOME_MIN` up to, not including,
/// `CHROMOSOME_MAX`.
pub fn initialize_population(rng: &mut StdRng) -> (population: Vec<Chromosome>)
    ensures
        population@.len() == POP_SIZE,
        forall|i: int|
            0 <= i < population@.len() ==> {
                let n = (#[trigger] population@[i]).bits@.len();
                &&& n % 4 == 0
                &&& 4 * CHROMOSOME_MIN <= n < 4 * CHROMOSOME_MAX
                &&& population@[i].fitness is None
            },
{
    let mut population: Vec<Chromosome> = Vec::new();
    while population.len() < POP_SIZE
        invariant
            population@.len() <= POP_SIZE,
            forall|i: int|
                0 <= i < population@.len() ==> {
                    let n = (#[trigger] population@[i]).bits@.len();
                    &&& n % 4 == 0
                    &&& 4 * CHROMOSOME_MIN <= n < 4 * CHROMOSOME_MAX
                    &&& population@[i].fitness is None
                },
        decreases POP_SIZE - population@.len(),
    {
        let mut c = Chromosome::new();
        let span: usize = CHROMOSOME_MAX - CHROMOSOME_MIN;
        let n: usize = CHROMOSOME_MIN + draw_below(rng, span as u128) as usize;
        while c.bits.len() < n * 4
            invariant
                c.bits@.len() <= n * 4,
                n < CHROMOSOME_MAX,
                c.fitness is None,
            decreases n * 4 - c.bits@.len(),
        {
            c.bits.push(draw_bit(rng));
        }
        population.push(c);
    }
    population
}

/// Evaluates the genomes in order and adds up their fitness, up to the
/// first one that hits the target: its place is given, and the genomes after
/// it are left as they were. Without a hit every genome is evaluated, and
/// the second result is the fitness of all of them together.
pub fn evaluate_all(population: &mut Vec<Chromosome>, target: i64) -> (out: (Option<usize>, u128))
    ensures
        final(population)@.len() == old(population)@.len(),
        forall|i: int|
            0 <= i < old(population)@.len() ==> (#[trigger] final(population)@[i]).bits@ == old(
                population,
            )@[i].bits@,
        match out.0 {
            Some(at) => {
                &&& at < final(population)@.len()
                &&& is_hit(final(population)@[at as int], target)
                &&& is_evaluated(final(population)@[at as int], target)
                &&& forall|j: int|
                    0 <= j < at ==> {
                        &&& !is_hit(#[trigger] final(population)@[j], target)
                        &&& is_evaluated(final(population)@[j], target)
                    }
                &&& forall|j: int|
                    at < j < final(population)@.len() ==> (#[trigger] final(population)@[j]).fitness
                        == old(population)@[j].fitness
                &&& out.1 == total_weight(final(population)@, at as int)
            },
            None => {
                &&& forall|j: int|
                    0 <= j < final(population)@.len() ==> {
                        &&& !is_hit(#[trigger] final(population)@[j], target)
                        &&& is_evaluated(final(population)@[j], target)
                    }
                &&& out.1 == total_weight(final(population)@, final(population)@.len() as int)
            },
        },
{
    let mut total: u128 = 0;
    let mut i: usize = 0;
    while i < population.len()
        invariant
            i <= population@.len(),
            population@.len() == old(population)@.len(),
            forall|k: int|
                0 <= k < population@.len() ==> (#[trigger] population@[k]).bits@ == old(
                    population,
                )@[k].bits@,
            forall|j: int|
                0 <= j < i ==> {
                    &&& !is_hit(#[trigger] population@[j], target)
                    &&& is_evaluated(population@[j], target)
                },
            forall|j: int|
                i <= j < population@.len() ==> (#[trigger] population@[j]).fitness == old(
                    population,
                )@[j].fitness,
            total == total_weight(population@, i as int),
            total <= i * FITNESS_ONE,
        decreases population@.len() - i,
    {
        let ghost before = population@;
        population[i].evaluate_fitness(target);
        let f = match population[i].fitness {
            Some(f) => f,
            None => 0,
        };
        proof {
            lemma_fitness_of(value_of(decoded(population@[i as int].bits@)), target);
        }
        proof {
            assert forall|j: int| 0 <= j < i implies {
                &&& !is_hit(#[trigger] population@[j], target)
                &&& is_evaluated(population@[j], target)
            } by {
                assert(population@[j] == before[j]);
            }
            lemma_total_weight_same(before, population@, i as int);
        }
        if FITNESS_ONE - f <= EPSILON {
            return (Some(i), total);
        }
        total = total + f;
        i += 1;
    }
    (None, total)
}

/// Populations that agree on their first `n` genomes agree on the weight of
/// those.
pub proof fn lemma_total_weight_same(a: Seq<Chromosome>, b: Seq<Chromosome>, n: int)
    requires
        n <= a.len(),
        n <= b.len(),
        forall|j: int| 0 <= j < n ==> a[j] == b[j],
    ensures
        total_weight(a, n) == total_weight(b, n),
    decreases n,
{
    if n > 0 {
        lemma_total_weight_same(a, b, n - 1);
    }
}

/// Whether two genomes may be bred from the parents `a` and `b`: `x` and `y`
/// are what a crossover makes of the parents, or the parents themselves;
/// `m` and `n` are `x` and `y` with some bits turned; the children are `m`
/// and `n` repaired, each with the fitness of its parent.
pub open spec fn breeds(
    a: Chromosome,
    b: Chromosome,
    x: Seq<bool>,
    y: Seq<bool>,
    m: Seq<bool>,
    n: Seq<bool>,
    child1: Chromosome,
    child2: Chromosome,
) -> bool {
    &&& (x == a.bits@ && y == b.bits@) || exists|cut: int| #[trigger]
        is_crossover_at(a.bits@, b.bits@, x, y, cut)
    &&& m.len() == x.len()
    &&& n.len() == y.len()
    &&& child1.bits@ == repaired(m)
    &&& child2.bits@ == repaired(n)
    &&& child1.fitness == a.fitness
    &&& child2.fitness == b.fitness
}

/// Whether two genomes may be the offspring of a population: they may be
/// bred from two parents that may be selected from it.
pub open spec fn is_offspring(
    population: Seq<Chromosome>,
    total_fitness: nat,
    child1: Chromosome,
    child2: Chromosome,
) -> bool {
    exists|a: Chromosome, b: Chromosome, x: Seq<bool>, y: Seq<bool>, m: Seq<bool>, n: Seq<bool>|
        is_selection(population, total_fitness, a) && is_selection(population, total_fitness, b)
            && #[trigger] breeds(a, b, x, y, m, n, child1, child2)
}

/// Breeds two genomes: selects two parents, crosses them over, mutates both
/// and repairs both.
pub fn breed(population: &Vec<Chromosome>, total_fitness: u128, rng: &mut StdRng) -> (children: (
    Chromosome,
    Chromosome,
))
    requires
        population@.len() > 0,
        forall|i: int| 0 <= i < population@.len() ==> (#[trigger] population@[i]).fitness is Some,
        total_fitness <= total_weight(population@, population@.len() as int),
    ensures
        is_offspring(population@, total_fitness as nat, children.0, children.1),
        is_repaired(children.0),
        is_repaired(children.1),
{
    let mut c1 = match select(population, total_fitness, rng) {
        Some(c) => c,
        None => Chromosome::new(),
    };
    let mut c2 = match select(population, total_fitness, rng) {
        Some(c) => c,
        None => Chromosome::new(),
    };
    let ghost a = c1;
    let ghost b = c2;
    crossover(&mut c1, &mut c2, rng);
    let ghost x = c1.bits@;
    let ghost y = c2.bits@;
    c1.mutate(rng);
    c2.mutate(rng);
    let ghost m = c1.bits@;
    let ghost n = c2.bits@;
    c1.correct();
    c2.correct();
    proof {
        assert(breeds(a, b, x, y, m, n, c1, c2));
    }
    (c1, c2)
}

/// Breeds the next generation: two genomes are selected, crossed over,
/// mutated and repaired, and both join the next generation, until it holds
/// `POP_SIZE` genomes.
pub fn reproduce(population: &Vec<Chromosome>, total_fitness: u128, rng: &mut StdRng) -> (next:
    Vec<Chromosome>)
    requires
        population@.len() > 0,
        forall|i: int| 0 <= i < population@.len() ==> (#[trigger] population@[i]).fitness is Some,
        total_fitness <= total_weight(population@, population@.len() as int),
    ensures
        next@.len() == POP_SIZE,
        forall|i: int| 0 <= i < next@.len() ==> is_repaired(#[trigger] next@[i]),
        forall|k: int|
            0 <= k < next@.len() && k % 2 == 0 ==> is_offspring(
                population@,
                total_fitness as nat,
                #[trigger] next@[k],
                next@[k + 1],
            ),
{
    let mut next: Vec<Chromosome> = Vec::new();
    while next.len() < POP_SIZE
        invariant
            next@.len() <= POP_SIZE,
            next@.len() % 2 == 0,
            forall|i: int| 0 <= i < next@.len() ==> is_repaired(#[trigger] next@[i]),
            forall|k: int|
                0 <= k < next@.len() && k % 2 == 0 ==> is_offspring(
                    population@,
                    total_fitness as nat,
                    #[trigger] next@[k],
                    next@[k + 1],
                ),
            population@.len() > 0,
            forall|i: int|
                0 <= i < population@.len() ==> (#[trigger] population@[i]).fitness is Some,
            total_fitness <= total_weight(population@, population@.len() as int),
        decreases POP_SIZE - next@.len(),
    {
        let ghost before = next@;
        let (c1, c2) = breed(population, total_fitness, rng);
        next.push(c1);
        next.push(c2);
        proof {
            assert forall|k: int| 0 <= k < next@.len() && k % 2 == 0 implies is_offspring(
                population@,
                total_fitness as nat,
                #[trigger] next@[k],
                next@[k + 1],
            ) by {
                if k < before.len() {
                    assert(next@[k] == before[k]);
                    assert(next@[k + 1] == before[k + 1]);
                }
            }
        }
    }
    next
}

/// Whether two populations hold the same bits, genome by genome.
pub open spec fn same_bits(a: Seq<Chromosome>, b: Seq<Chromosome>) -> bool {
    a.len() == b.len() && forall|i: int| 0 <= i < a.len() ==> (#[trigger] a[i]).bits@ == b[i].bits@
}

/// Whether a population has the sizes of a first generation: `POP_SIZE`
/// genomes, each of a whole number of codons from `CHROMOSOME_MIN` up to,
/// not including, `CHROMOSOME_MAX`.
pub open spec fn has_first_sizes(population: Seq<Chromosome>) -> bool {
    &&& population.len() == POP_SIZE
    &&& forall|i: int|
        0 <= i < population.len() ==> {
            let n = (#[trigger] population[i]).bits@.len();
            n % 4 == 0 && 4 * CHROMOSOME_MIN <= n < 4 * CHROMOSOME_MAX
        }
}

/// Whether a population is a first generation: it has the sizes of one, and
/// none of its genomes has a fitness yet.
pub open spec fn is_first_generation(population: Seq<Chromosome>) -> bool {
    &&& has_first_sizes(population)
    &&& forall|i: int| 0 <= i < population.len() ==> (#[trigger] population[i]).fitness is None
}

/// Whether every genome of a population is evaluated and none hits the
/// target.
pub open spec fn is_barren(population: Seq<Chromosome>, target: i64) -> bool {
    forall|j: int|
        0 <= j < population.len() ==> {
            &&& is_evaluated(#[trigger] population[j], target)
            &&& !is_hit(population[j], target)
        }
}

/// Whether the genome at `at` is the first of a population to hit the
/// target, and the genomes up to it are evaluated.
pub open spec fn is_first_hit(population: Seq<Chromosome>, target: i64, at: int) -> bool {
    &&& 0 <= at < population.len()
    &&& is_hit(population[at], target)
    &&& is_evaluated(population[at], target)
    &&& forall|j: int|
        0 <= j < at ==> {
            &&& is_evaluated(#[trigger] population[j], target)
            &&& !is_hit(population[j], target)
        }
}

/// Whether `c` is a copy of the first genome of a population that hits the
/// target.
pub open spec fn is_found(population: Seq<Chromosome>, target: i64, c: Chromosome) -> bool {
    exists|at: int| #[trigger]
        is_first_hit(population, target, at) && c.bits@ == population[at].bits@ && c.fitness
            == population[at].fitness
}

/// Whether `next` may be the generation bred from `parents`: `POP_SIZE`
/// genomes that are, two by two, offspring of the parents, selected by the
/// fitness that the parents have in all.
pub open spec fn is_generation_of(parents: Seq<Chromosome>, next: Seq<Chromosome>) -> bool {
    &&& next.len() == POP_SIZE
    &&& forall|k: int|
        0 <= k < next.len() && k % 2 == 0 ==> is_offspring(
            parents,
            total_weight(parents, parents.len() as int),
            #[trigger] next[k],
            next[k + 1],
        )
}

/// Whether `next` may come of `before` in one generation without a hit:
/// `evaluated` is `before` with every genome evaluated, none of them hits
/// the target, and `next` is bred from them.
pub open spec fn is_bred_from(
    before: Seq<Chromosome>,
    evaluated: Seq<Chromosome>,
    next: Seq<Chromosome>,
    target: i64,
) -> bool {
    &&& same_bits(before, evaluated)
    &&& is_barren(evaluated, target)
    &&& is_generation_of(evaluated, next)
}

/// Whether the population `next`, as it stands when it is evaluated, holds
/// the bits of a generation bred from `parents`.
pub open spec fn descends(parents: Seq<Chromosome>, next: Seq<Chromosome>) -> bool {
    exists|bred: Seq<Chromosome>| #[trigger] is_generation_of(parents, bred) && same_bits(bred, next)
}

/// Whether `history` may be the generations of a search, each as it stood
/// when it was evaluated: the first has the sizes of a first generation,
/// every one but the last is without a hit, and every one after the first
/// descends from the one before it.
pub open spec fn is_history(history: Seq<Seq<Chromosome>>, target: i64) -> bool {
    &&& history.len() >= 1
    &&& has_first_sizes(history[0])
    &&& forall|g: int|
        0 <= g < history.len() - 1 ==> is_barren(#[trigger] history[g], target) && descends(
            history[g],
            history[g + 1],
        )
}

/// Whether `history` records a search that ended after `generations`
/// generations with `found`: a copy of the first genome of the last
/// generation that hits the target, or nothing when `MAX_GENS` generations
/// went by without a hit.
pub open spec fn is_record(
    history: Seq<Seq<Chromosome>>,
    target: i64,
    generations: nat,
    found: Option<Chromosome>,
) -> bool {
    &&& history.len() == generations
    &&& is_history(history, target)
    &&& match found {
        Some(c) => is_found(history.last(), target, c),
        None => generations == MAX_GENS && is_barren(history.last(), target),
    }
}

/// A search under way: the population of the generation at hand, and the
/// number of generations evaluated so far.
pub struct Search {
    generation: usize,
    population: Vec<Chromosome>,
}

/// What one step of a search came to.
pub enum Step {
    /// The generation had no hit, and the next one was bred from it.
    Bred,
    /// The generation holds a hit; this is a copy of the first one.
    Found(Chromosome),
    /// `MAX_GENS` generations went by without a hit. Nothing was done.
    GaveUp,
}

impl Search {
    #[verifier::type_invariant]
    spec fn in_bounds(&self) -> bool {
        self.generation <= MAX_GENS && self.population@.len() == POP_SIZE
    }

    /// The number of generations evaluated so far.
    pub closed spec fn generations(&self) -> nat {
        self.generation as nat
    }

    /// The population of the generation at hand.
    pub closed spec fn genomes(&self) -> Seq<Chromosome> {
        self.population@
    }

    /// A search at its start: a first generation, not yet evaluated.
    pub fn new(rng: &mut StdRng) -> (search: Search)
        ensures
            search.generations() == 0,
            is_first_generation(search.genomes()),
    {
        Search { generation: 0, population: initialize_population(rng) }
    }

    /// The number of generations evaluated so far.
    pub fn generation(&self) -> (n: usize)
        ensures
            n == self.generations(),
            n <= MAX_GENS,
    {
        proof {
            use_type_invariant(self);
        }
        self.generation
    }

    /// The population of the generation at hand.
    pub fn population(&self) -> (population: &Vec<Chromosome>)
        ensures
            population@ == self.genomes(),
            population@.len() == POP_SIZE,
    {
        proof {
            use_type_invariant(self);
        }
        &self.population
    }

    /// Takes the search one generation on, and gives the search as it then
    /// stands. After `MAX_GENS` generations it gives up and changes nothing.
    /// Else the generation at hand is evaluated, genome by genome. The first
    /// genome that hits the target ends the step, and a copy of it comes
    /// back. Without a hit the next generation is bred and takes the place
    /// of this one.
    pub fn advance(self, target: i64, rng: &mut StdRng) -> (out: (Search, Step))
        ensures
            out.0.generations() <= MAX_GENS,
            out.0.genomes().len() == POP_SIZE,
            match out.1 {
                Step::GaveUp => {
                    &&& self.generations() == MAX_GENS
                    &&& out.0.generations() == self.generations()
                    &&& out.0.genomes() == self.genomes()
                },
                Step::Found(c) => {
                    &&& out.0.generations() == self.generations() + 1
                    &&& same_bits(self.genomes(), out.0.genomes())
                    &&& is_found(out.0.genomes(), target, c)
                },
                Step::Bred => {
                    &&& out.0.generations() == self.generations() + 1
                    &&& exists|evaluated: Seq<Chromosome>| #[trigger]
                        is_bred_from(self.genomes(), evaluated, out.0.genomes(), target)
                },
            },
    {
        proof {
            use_type_invariant(&self);
        }
        if self.generation >= MAX_GENS {
            return (self, Step::GaveUp);
        }
        let ghost start = self.genomes();
        let generation = self.generation + 1;
        let mut population = self.population;
        let ghost before = population@;
        let (hit, total_fitness) = evaluate_all(&mut population, target);
        match hit {
            Some(at) => {
                let c = population[at].clone();
                proof {
                    assert(is_first_hit(population@, target, at as int));
                    assert(same_bits(before, population@)) by {
                        assert forall|i: int| 0 <= i < before.len() implies (#[trigger] before[i]).bits@
                            == population@[i].bits@ by {
                            assert(population@[i].bits@ == before[i].bits@);
                        }
                    }
                    assert(is_found(population@, target, c));
                }
                (Search { generation, population }, Step::Found(c))
            },
            None => {
                let ghost evaluated = population@;
                let next = reproduce(&population, total_fitness, rng);
                proof {
                    assert(same_bits(before, population@)) by {
                        assert forall|i: int| 0 <= i < before.len() implies (#[trigger] before[i]).bits@
                            == population@[i].bits@ by {
                            assert(population@[i].bits@ == before[i].bits@);
                        }
                    }
                    assert(is_barren(population@, target));
                    assert(is_generation_of(population@, next@));
                    assert(is_bred_from(before, population@, next@, target));
                }
                let search = Search { generation, population: next };
                proof {
                    assert(start == before);
                    assert(search.genomes() == next@);
                    assert(is_bred_from(start, evaluated, search.genomes(), target));
                    assert(exists|e: Seq<Chromosome>| #[trigger]
                        is_bred_from(start, e, search.genomes(), target));
                }
                (search, Step::Bred)
            },
        }
    }
}

/// Whether a search may stand where it does: `past` are the generations
/// evaluated so far, none with a hit, each after the first descended from
/// the one before it, and `now` is the generation at hand: a first
/// generation when there is no past, and else bred from the last.
#[verifier::opaque]
pub open spec fn is_progress(past: Seq<Seq<Chromosome>>, now: Seq<Chromosome>, target: i64) -> bool {
    &&& forall|g: int| 0 <= g < past.len() ==> is_barren(#[trigger] past[g], target)
    &&& forall|g: int| 0 <= g < past.len() - 1 ==> descends(#[trigger] past[g], past[g + 1])
    &&& past.len() == 0 ==> is_first_generation(now)
    &&& past.len() > 0 ==> has_first_sizes(past[0]) && is_generation_of(past.last(), now)
}

/// A search starts with no past and a first generation at hand.
pub proof fn lemma_progress_starts(now: Seq<Chromosome>, target: i64)
    requires
        is_first_generation(now),
    ensures
        is_progress(Seq::empty(), now, target),
{
    reveal(is_progress);
}

/// The generation at hand, as it stands evaluated, joins the past as a
/// generation of the history.
proof fn lemma_history_grows(
    past: Seq<Seq<Chromosome>>,
    before: Seq<Chromosome>,
    evaluated: Seq<Chromosome>,
    target: i64,
)
    requires
        is_progress(past, before, target),
        same_bits(before, evaluated),
    ensures
        is_history(past.push(evaluated), target),
        forall|g: int|
            0 <= g < past.len() ==> descends(
                #[trigger] past.push(evaluated)[g],
                past.push(evaluated)[g + 1],
            ),
{
    reveal(is_progress);
    let whole = past.push(evaluated);
    if past.len() == 0 {
        assert(whole[0] == evaluated);
        assert forall|i: int| 0 <= i < evaluated.len() implies {
            let n = (#[trigger] evaluated[i]).bits@.len();
            n % 4 == 0 && 4 * CHROMOSOME_MIN <= n < 4 * CHROMOSOME_MAX
        } by {
            assert(before[i].bits@ == evaluated[i].bits@);
        }
    } else {
        assert(whole[0] == past[0]);
    }
    assert forall|g: int| 0 <= g < past.len() implies descends(#[trigger] whole[g], whole[g + 1]) by {
        assert(whole[g] == past[g]);
        if g < past.len() - 1 {
            assert(whole[g + 1] == past[g + 1]);
        } else {
            assert(whole[g + 1] == evaluated);
            assert(past[g] == past.last());
            assert(is_generation_of(past[g], before) && same_bits(before, evaluated));
        }
    }
    assert forall|g: int| 0 <= g < whole.len() - 1 implies is_barren(#[trigger] whole[g], target)
        && descends(whole[g], whole[g + 1]) by {
        assert(whole[g] == past[g]);
    }
}

/// A generation without a hit joins the past, and the generation bred from
/// it is at hand.
pub proof fn lemma_progress_bred(
    past: Seq<Seq<Chromosome>>,
    before: Seq<Chromosome>,
    evaluated: Seq<Chromosome>,
    next: Seq<Chromosome>,
    target: i64,
)
    requires
        is_progress(past, before, target),
        is_bred_from(before, evaluated, next, target),
    ensures
        is_progress(past.push(evaluated), next, target),
{
    lemma_history_grows(past, before, evaluated, target);
    reveal(is_progress);
    let whole = past.push(evaluated);
    assert(whole.last() == evaluated);
    assert forall|g: int| 0 <= g < whole.len() implies is_barren(#[trigger] whole[g], target) by {
        if g < past.len() {
            assert(whole[g] == past[g]);
        }
    }
}

/// A search that finds a hit in the generation at hand leaves a record of
/// one generation more than its past.
pub proof fn lemma_progress_found(
    past: Seq<Seq<Chromosome>>,
    before: Seq<Chromosome>,
    last: Seq<Chromosome>,
    target: i64,
    c: Chromosome,
    generations: nat,
)
    requires
        is_progress(past, before, target),
        same_bits(before, last),
        is_found(last, target, c),
        generations == past.len() + 1,
    ensures
        is_record(past.push(last), target, generations, Some(c)),
        is_hit(c, target),
        is_evaluated(c, target),
{
    lemma_history_grows(past, before, last, target);
    assert(past.push(last).last() == last);
    let at = choose|at: int| #[trigger]
        is_first_hit(last, target, at) && c.bits@ == last[at].bits@ && c.fitness
            == last[at].fitness;
    assert(is_hit(last[at], target));
}

/// A search that gives up after `MAX_GENS` generations leaves its past as
/// the record.
pub proof fn lemma_progress_gave_up(past: Seq<Seq<Chromosome>>, now: Seq<Chromosome>, target: i64)
    requires
        is_progress(past, now, target),
        past.len() == MAX_GENS,
    ensures
        is_record(past, target, MAX_GENS as nat, None),
{
    reveal(is_progress);
    assert(past.last() == past[past.len() - 1]);
}

/// Searches for an expression whose value is `target`, drawing from `rng`.
///
/// Generations are counted from one. Each generation is evaluated genome by
/// genome; the first genome that hits the target ends the search, and a
/// copy of it comes back with the number of its generation. Else the next
/// generation is bred from this one. After `MAX_GENS` generations without a
/// hit the search gives up.
pub fn ga(target: i64, rng: &mut StdRng) -> (out: (usize, Option<Chromosome>))
    ensures
        out.0 <= MAX_GENS,
        match out.1 {
            Some(c) => 1 <= out.0 && is_hit(c, target) && is_evaluated(c, target),
            None => out.0 == MAX_GENS,
        },
        exists|history: Seq<Seq<Chromosome>>| #[trigger]
            is_record(history, target, out.0 as nat, out.1),
{
    let mut search = Search::new(rng);
    let ghost mut history: Seq<Seq<Chromosome>> = Seq::empty();
    proof {
        lemma_progress_starts(search.genomes(), target);
    }
    loop
        invariant
            search.generations() == history.len(),
            history.len() <= MAX_GENS,
            is_progress(history, search.genomes(), target),
        decreases MAX_GENS - history.len(),
    {
        let ghost before = search.genomes();
        let (next, step) = search.advance(target, rng);
        search = next;
        let generations = search.generation();
        match step {
            Step::GaveUp => {
                proof {
                    lemma_progress_gave_up(history, before, target);
                }
                return (generations, None);
            },
            Step::Found(c) => {
                let ghost found = c;
                let out = (generations, Some(c));
                proof {
                    lemma_progress_found(
                        history,
                        before,
                        search.genomes(),
                        target,
                        found,
                        generations as nat,
                    );
                    assert(out.1 == Some(found));
                    assert(is_record(
                        history.push(search.genomes()),
                        target,
                        out.0 as nat,
                        out.1,
                    ));
                }
                return out;
            },
            Step::Bred => {
                proof {
                    let evaluated = choose|evaluated: Seq<Chromosome>| #[trigger]
                        is_bred_from(before, evaluated, search.genomes(), target);
                    lemma_progress_bred(history, before, evaluated, search.genomes(), target);
                    history = history.push(evaluated);
                }
            },
        }
    }
}

} // verus!
