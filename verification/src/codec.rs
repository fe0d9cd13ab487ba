//! Genomes and the expressions they spell.
//!
//! A genome is read four bits at a time. Each group of four, a codon, has a
//! value from 0 to 15: the values 0 to 9 spell the digits, 10 to 13 spell
//! `+ - * /`, and 14 and 15 spell nothing.

use crate::bits::{binary, bits_of, bits_value, from_binary};
use crate::expr::is_symbol;
use crate::text::{
    chars_of, is_blank, is_digit, is_numeral, is_word, joined, lemma_words_of_joined,
    numeral_value, numeral_within, parse_numeral, split_words, views, words,
};
use vstd::prelude::*;

verus! {

/// A candidate expression: a string of bits, and how fit it was found to be
/// when it was last evaluated. A genome that was never evaluated has no
/// fitness.
///
/// Fitness is a fixed-point number: `FITNESS_ONE` stands for 1.
pub struct Chromosome {
    pub bits: Vec<bool>,
    pub fitness: Option<u128>,
}

/// The symbols that the codon values 0 to 13 spell, in that order.
pub open spec fn alphabet() -> Seq<char> {
    seq!['0', '1', '2', '3', '4', '5', '6', '7', '8', '9', '+', '-', '*', '/']
}

/// The value of the `k`-th codon of a genome.
pub open spec fn codon(bits: Seq<bool>, k: int) -> nat {
    bits_value(bits.subrange(4 * k, 4 * k + 4))
}

/// The values of the complete codons of a genome, in order. Bits after the
/// last complete codon do not count.
pub open spec fn codons(bits: Seq<bool>) -> Seq<nat> {
    Seq::new(bits.len() / 4, |k: int| codon(bits, k))
}

/// The symbols that a sequence of codon values spells, in order. Values
/// above 13 spell nothing.
pub open spec fn symbols(cs: Seq<nat>) -> Seq<char>
    decreases cs.len(),
{
    if cs.len() == 0 {
        Seq::empty()
    } else if cs.last() < 14 {
        symbols(cs.drop_last()).push(alphabet()[cs.last() as int])
    } else {
        symbols(cs.drop_last())
    }
}

/// Each character as a word of its own.
pub open spec fn singles(cs: Seq<char>) -> Seq<Seq<char>> {
    Seq::new(cs.len(), |i: int| seq![cs[i]])
}

/// The text that a sequence of codon values spells: its symbols with a
/// single space between neighbours.
pub open spec fn text_of(cs: Seq<nat>) -> Seq<char> {
    joined(singles(symbols(cs)))
}

/// The text that a genome spells.
pub open spec fn decoded(bits: Seq<bool>) -> Seq<char> {
    text_of(codons(bits))
}

/// Four bits spell a value below sixteen.
pub proof fn lemma_codon_bound(b: Seq<bool>)
    requires
        b.len() == 4,
    ensures
        bits_value(b) < 16,
{
    reveal_with_fuel(bits_value, 5);
}

/// The string of the symbol that a codon value spells.
fn symbol_str(val: usize) -> (s: &'static str)
    requires
        val < 14,
    ensures
        s@ == seq![alphabet()[val as int]],
{
    proof {
        reveal_strlit("0");
        reveal_strlit("1");
        reveal_strlit("2");
        reveal_strlit("3");
        reveal_strlit("4");
        reveal_strlit("5");
        reveal_strlit("6");
        reveal_strlit("7");
        reveal_strlit("8");
        reveal_strlit("9");
        reveal_strlit("+");
        reveal_strlit("-");
        reveal_strlit("*");
        reveal_strlit("/");
    }
    match val {
        0 => "0",
        1 => "1",
        2 => "2",
        3 => "3",
        4 => "4",
        5 => "5",
        6 => "6",
        7 => "7",
        8 => "8",
        9 => "9",
        10 => "+",
        11 => "-",
        12 => "*",
        _ => "/",
    }
}

/// The operator that the codon value `val` spells, as a string.
pub fn get_operator(val: u8) -> (s: String)
    requires
        10 <= val <= 13,
    ensures
        s@ == seq![alphabet()[val as int]],
{
    symbol_str(val as usize).to_owned()
}

/// Adds one more symbol to a text, after a space unless it is the first.
fn push_symbol(text: &mut String, started: bool, val: usize)
    requires
        val < 14,
    ensures
        final(text)@ == if started {
            old(text)@ + seq![' '] + seq![alphabet()[val as int]]
        } else {
            old(text)@ + seq![alphabet()[val as int]]
        },
{
    if started {
        proof {
            reveal_strlit(" ");
        }
        text.append(" ");
        assert(text@ =~= old(text)@ + seq![' ']);
    }
    text.append(symbol_str(val));
}

/// Spelling one more codon: its symbol, if it has one, follows the text.
pub proof fn lemma_text_of_push(cs: Seq<nat>, v: nat)
    ensures
        symbols(cs.push(v)) == if v < 14 {
            symbols(cs).push(alphabet()[v as int])
        } else {
            symbols(cs)
        },
        text_of(cs.push(v)) == if v >= 14 {
            text_of(cs)
        } else if symbols(cs).len() == 0 {
            seq![alphabet()[v as int]]
        } else {
            text_of(cs) + seq![' '] + seq![alphabet()[v as int]]
        },
{
    assert(cs.push(v).drop_last() =~= cs);
    if v < 14 {
        let c = alphabet()[v as int];
        let before = singles(symbols(cs));
        let after = singles(symbols(cs).push(c));
        assert(after =~= before.push(seq![c]));
        assert(after.drop_last() =~= before);
        if symbols(cs).len() == 0 {
            assert(after[0] == seq![c]);
        }
    }
}

/// Why a text could not be encoded: the word at `position`, counting from
/// zero, is neither an operator nor an unsigned numeral that fits in `usize`.
#[derive(Clone, Copy, Debug, PartialEq, Eq, Structural)]
pub struct EncodeError {
    pub position: usize,
}

/// The number that a word spells as an unsigned numeral no greater than
/// `usize::MAX`. A plus sign may stand before the digits.
pub open spec fn unsigned(w: Seq<char>) -> Option<nat> {
    if w.len() >= 2 && w[0] == '+' {
        numeral_within(w.skip(1), usize::MAX as nat)
    } else {
        numeral_within(w, usize::MAX as nat)
    }
}

/// How many bits are missing from `n` bits to the next multiple of four.
pub open spec fn pad_len(n: nat) -> nat {
    ((4 - n % 4) % 4) as nat
}

/// A bit string with zero bits put before it until its length is a multiple
/// of four.
pub open spec fn padded(b: Seq<bool>) -> Seq<bool> {
    Seq::new(pad_len(b.len()), |i: int| false) + b
}

/// The bits that encode one word: the fixed codon of an operator, or the
/// padded spelling of a numeral. Any other word has no encoding.
pub open spec fn encode_word(w: Seq<char>) -> Option<Seq<bool>> {
    if is_symbol(w, '+') {
        Some(seq![true, false, true, false])
    } else if is_symbol(w, '-') {
        Some(seq![true, false, true, true])
    } else if is_symbol(w, '*') {
        Some(seq![true, true, false, false])
    } else if is_symbol(w, '/') {
        Some(seq![true, true, false, true])
    } else {
        match unsigned(w) {
            Some(n) => Some(padded(bits_of(n))),
            None => None,
        }
    }
}

/// The encodings of the first `n` words one after another, when each of
/// them has one.
pub open spec fn encode_all(ws: Seq<Seq<char>>, n: int) -> Option<Seq<bool>>
    decreases n,
{
    if n <= 0 {
        Some(Seq::empty())
    } else {
        match (encode_all(ws, n - 1), encode_word(ws[n - 1])) {
            (Some(bits), Some(more)) => Some(bits + more),
            _ => None,
        }
    }
}

/// The genome that encodes a text: the encodings of its words in order.
/// There is none when one of the words has no encoding.
pub open spec fn encoded(text: Seq<char>) -> Option<Seq<bool>> {
    encode_all(words(text), words(text).len() as int)
}

/// Once a word has no encoding, no longer run of the words has one.
pub proof fn lemma_encode_all_fails(ws: Seq<Seq<char>>, k: int, n: int)
    requires
        0 <= k <= n,
        encode_all(ws, k) is None,
    ensures
        encode_all(ws, n) is None,
    decreases n - k,
{
    if k < n {
        lemma_encode_all_fails(ws, k + 1, n);
    }
}

/// Every encoding has a whole number of codons.
pub proof fn lemma_encode_all_len(ws: Seq<Seq<char>>, n: int)
    requires
        encode_all(ws, n) is Some,
    ensures
        encode_all(ws, n)->0.len() % 4 == 0,
    decreases n,
{
    if n > 0 {
        lemma_encode_all_len(ws, n - 1);
    }
}

/// Four given bits as a vector.
fn nibble(a: bool, b: bool, c: bool, d: bool) -> (v: Vec<bool>)
    ensures
        v@ == seq![a, b, c, d],
{
    let mut v: Vec<bool> = Vec::new();
    v.push(a);
    v.push(b);
    v.push(c);
    v.push(d);
    v
}

/// Reads an unsigned numeral.
fn parse_unsigned(word: &Vec<char>) -> (value: Option<usize>)
    ensures
        match value {
            Some(n) => unsigned(word@) == Some(n as nat),
            None => unsigned(word@) is None,
        },
{
    let digits = if word.len() >= 2 && word[0] == '+' {
        &word.as_slice()[1..word.len()]
    } else {
        word.as_slice()
    };
    proof {
        if word@.len() >= 2 && word@[0] == '+' {
            assert(digits@ =~= word@.skip(1));
        }
    }
    match parse_numeral(digits, usize::MAX as u64) {
        Some(n) => Some(n as usize),
        None => None,
    }
}

/// Encodes one word.
fn encode_one(word: &Vec<char>) -> (bits: Option<Vec<bool>>)
    ensures
        match bits {
            Some(b) => encode_word(word@) == Some(b@),
            None => encode_word(word@) is None,
        },
{
    if word.len() == 1 && word[0] == '+' {
        Some(nibble(true, false, true, false))
    } else if word.len() == 1 && word[0] == '-' {
        Some(nibble(true, false, true, true))
    } else if word.len() == 1 && word[0] == '*' {
        Some(nibble(true, true, false, false))
    } else if word.len() == 1 && word[0] == '/' {
        Some(nibble(true, true, false, true))
    } else {
        match parse_unsigned(word) {
            None => None,
            Some(n) => {
                let mut spelling = binary(n);
                let missing: usize = (4 - spelling.len() % 4) % 4;
                let mut bits: Vec<bool> = Vec::new();
                while bits.len() < missing
                    invariant
                        bits@.len() <= missing,
                        forall|i: int| 0 <= i < bits@.len() ==> !bits@[i],
                    decreases missing - bits.len(),
                {
                    bits.push(false);
                }
                let ghost zeros = bits@;
                let ghost digits = spelling@;
                bits.append(&mut spelling);
                proof {
                    assert(missing as nat == pad_len(digits.len()));
                    assert(zeros =~= Seq::new(pad_len(digits.len()), |i: int| false));
                    assert(bits@ =~= padded(digits));
                }
                Some(bits)
            },
        }
    }
}

/// Encodes a text as a genome: each word becomes the codon of its operator
/// or the padded spelling of its number. Fails at the first word that is
/// neither.
pub fn encode_expression(expr: &str) -> (out: Result<Vec<bool>, EncodeError>)
    ensures
        match out {
            Ok(bits) => encoded(expr@) == Some(bits@) && bits@.len() % 4 == 0,
            Err(e) => {
                &&& encoded(expr@) is None
                &&& e.position < words(expr@).len()
                &&& encode_word(words(expr@)[e.position as int]) is None
                &&& encode_all(words(expr@), e.position as int) is Some
            },
        },
{
    let chars = chars_of(expr);
    let ws = split_words(&chars);
    let mut bits: Vec<bool> = Vec::new();
    let mut i: usize = 0;
    while i < ws.len()
        invariant
            i <= ws.len(),
            views(ws@) == words(expr@),
            encode_all(words(expr@), i as int) == Some(bits@),
        decreases ws.len() - i,
    {
        proof {
            assert(views(ws@)[i as int] == ws@[i as int]@);
        }
        match encode_one(&ws[i]) {
            Some(mut more) => {
                bits.append(&mut more);
            },
            None => {
                proof {
                    lemma_encode_all_fails(words(expr@), i + 1, ws.len() as int);
                }
                return Err(EncodeError { position: i });
            },
        }
        i += 1;
    }
    proof {
        lemma_encode_all_len(words(expr@), ws.len() as int);
    }
    Ok(bits)
}

/// Every symbol that codon values spell comes from the alphabet.
pub proof fn lemma_symbols_in_alphabet(cs: Seq<nat>)
    ensures
        forall|i: int|
            0 <= i < symbols(cs).len() ==> exists|v: int|
                0 <= v < 14 && #[trigger] symbols(cs)[i] == #[trigger] alphabet()[v],
    decreases cs.len(),
{
    if cs.len() > 0 {
        lemma_symbols_in_alphabet(cs.drop_last());
        let front = symbols(cs.drop_last());
        assert forall|i: int| 0 <= i < symbols(cs).len() implies exists|v: int|
            0 <= v < 14 && #[trigger] symbols(cs)[i] == #[trigger] alphabet()[v] by {
            if i < front.len() {
                assert(symbols(cs)[i] == front[i]);
            } else {
                let v = cs.last() as int;
                assert(symbols(cs)[i] == alphabet()[v]);
            }
        }
    }
}

/// The words of the text that codon values spell are its symbols, each a
/// word of its own.
pub proof fn lemma_words_of_text(cs: Seq<nat>)
    ensures
        words(text_of(cs)) == singles(symbols(cs)),
{
    lemma_symbols_in_alphabet(cs);
    let ws = singles(symbols(cs));
    assert forall|k: int| 0 <= k < ws.len() implies is_word(#[trigger] ws[k]) by {
        let v = choose|v: int| 0 <= v < 14 && symbols(cs)[k] == #[trigger] alphabet()[v];
        lemma_encode_symbol(v as nat);
    }
    lemma_words_of_joined(ws);
}

/// Whether the codon value `v` may stand in a slot: a digit in an operand
/// slot, an operator in an operator slot.
pub open spec fn fits_slot(v: nat, operator_slot: bool) -> bool {
    if operator_slot {
        10 <= v <= 13
    } else {
        v <= 9
    }
}

/// The codon values that survive repair. Slots alternate, starting with an
/// operand slot; a value is kept when it fits the slot that is open, which
/// then closes, and is dropped otherwise.
pub open spec fn alternate(cs: Seq<nat>) -> Seq<nat>
    decreases cs.len(),
{
    if cs.len() == 0 {
        Seq::empty()
    } else {
        let kept = alternate(cs.drop_last());
        if fits_slot(cs.last(), kept.len() % 2 == 1) {
            kept.push(cs.last())
        } else {
            kept
        }
    }
}

/// Whether digits and operators take turns in `cs`, a digit first.
pub open spec fn is_alternating(cs: Seq<nat>) -> bool {
    forall|i: int| 0 <= i < cs.len() ==> fits_slot(#[trigger] cs[i], i % 2 == 1)
}

/// The codon of a value below sixteen: its four bits, most significant first.
pub open spec fn quad(v: nat) -> Seq<bool> {
    seq![v / 8 % 2 == 1, v / 4 % 2 == 1, v / 2 % 2 == 1, v % 2 == 1]
}

/// The genome made of the codons of the values `cs`, in order.
pub open spec fn spelled(cs: Seq<nat>) -> Seq<bool>
    decreases cs.len(),
{
    if cs.len() == 0 {
        Seq::empty()
    } else {
        spelled(cs.drop_last()) + quad(cs.last())
    }
}

/// The repaired form of a genome: the codons that survive repair.
pub open spec fn repaired(bits: Seq<bool>) -> Seq<bool> {
    spelled(alternate(codons(bits)))
}

/// What survives repair alternates, a digit first.
pub proof fn lemma_alternate_alternates(cs: Seq<nat>)
    ensures
        is_alternating(alternate(cs)),
        alternate(cs).len() <= cs.len(),
    decreases cs.len(),
{
    if cs.len() > 0 {
        lemma_alternate_alternates(cs.drop_last());
    }
}

/// Repair changes nothing in a sequence that alternates already.
pub proof fn lemma_alternate_fixed(cs: Seq<nat>)
    requires
        is_alternating(cs),
    ensures
        alternate(cs) == cs,
    decreases cs.len(),
{
    if cs.len() > 0 {
        let front = cs.drop_last();
        assert forall|i: int| 0 <= i < front.len() implies fits_slot(
            #[trigger] front[i],
            i % 2 == 1,
        ) by {
            assert(front[i] == cs[i]);
        }
        lemma_alternate_fixed(front);
        assert(fits_slot(cs[cs.len() - 1], (cs.len() - 1) % 2 == 1));
        assert(front.push(cs.last()) =~= cs);
    } else {
        assert(alternate(cs) =~= cs);
    }
}

/// The codon of a value spells that value.
pub proof fn lemma_quad_value(v: nat)
    requires
        v < 16,
    ensures
        bits_value(quad(v)) == v,
        quad(v).len() == 4,
{
    let q = quad(v);
    let q3 = q.drop_last();
    let q2 = q3.drop_last();
    let q1 = q2.drop_last();
    assert(q1.drop_last().len() == 0);
    assert(bits_value(q1.drop_last()) == 0);
    assert(bits_value(q1) == v / 8 % 2);
    assert(bits_value(q2) == 2 * bits_value(q1) + v / 4 % 2);
    assert(bits_value(q3) == 2 * bits_value(q2) + v / 2 % 2);
    assert(bits_value(q) == 2 * bits_value(q3) + v % 2);
}

/// Reading the codons of a genome that was spelled from values gives the
/// values back.
pub proof fn lemma_codons_of_spelled(cs: Seq<nat>)
    requires
        forall|i: int| 0 <= i < cs.len() ==> #[trigger] cs[i] < 16,
    ensures
        spelled(cs).len() == 4 * cs.len(),
        codons(spelled(cs)) == cs,
    decreases cs.len(),
{
    if cs.len() == 0 {
        assert(codons(spelled(cs)) =~= cs);
    } else {
        let front = cs.drop_last();
        lemma_codons_of_spelled(front);
        lemma_quad_value(cs.last());
        let g = spelled(cs);
        let f = spelled(front);
        assert(g == f + quad(cs.last()));
        assert forall|k: int| 0 <= k < cs.len() implies codon(g, k) == cs[k] by {
            if k < front.len() {
                assert(g.subrange(4 * k, 4 * k + 4) =~= f.subrange(4 * k, 4 * k + 4));
                assert(codons(f)[k] == codon(f, k));
                assert(front[k] == cs[k]);
            } else {
                assert(g.subrange(4 * k, 4 * k + 4) =~= quad(cs.last()));
            }
        }
        assert(codons(g) =~= cs);
    }
}

/// Values below fourteen all spell a symbol, one for one.
pub proof fn lemma_symbols_of_legible(cs: Seq<nat>)
    requires
        forall|i: int| 0 <= i < cs.len() ==> #[trigger] cs[i] < 14,
    ensures
        symbols(cs).len() == cs.len(),
        forall|i: int| 0 <= i < cs.len() ==> #[trigger] symbols(cs)[i] == alphabet()[cs[i] as int],
    decreases cs.len(),
{
    if cs.len() > 0 {
        let front = cs.drop_last();
        assert forall|i: int| 0 <= i < front.len() implies #[trigger] front[i] < 14 by {
            assert(front[i] == cs[i]);
        }
        lemma_symbols_of_legible(front);
        assert(cs.last() == cs[cs.len() - 1]);
        assert forall|i: int| 0 <= i < cs.len() implies #[trigger] symbols(cs)[i] == alphabet()[cs[
            i
        ] as int] by {
            if i < front.len() {
                assert(symbols(cs)[i] == symbols(front)[i]);
                assert(front[i] == cs[i]);
            }
        }
    }
}

/// A symbol standing alone is a word, and its encoding is the codon of its
/// value.
pub proof fn lemma_encode_symbol(v: nat)
    requires
        v < 14,
    ensures
        is_word(seq![alphabet()[v as int]]),
        encode_word(seq![alphabet()[v as int]]) == Some(quad(v)),
{
    let c = alphabet()[v as int];
    let w = seq![c];
    assert(w[0] == c);
    assert(!is_blank(c));
    if v < 10 {
        assert(is_digit(c));
        assert(is_numeral(w));
        assert(w.drop_last().len() == 0);
        assert(numeral_value(w.drop_last()) == 0);
        assert(numeral_value(w) == v);
        assert(unsigned(w) == Some(v));
        reveal_with_fuel(bits_of, 5);
        assert(padded(bits_of(v)) =~= quad(v));
    } else {
        assert(encode_word(w)->0 =~= quad(v));
    }
}

/// Encoding the text that values below fourteen spell gives the genome
/// spelled from those values, and the words of that text are its symbols.
pub proof fn lemma_encoded_text(cs: Seq<nat>)
    requires
        forall|i: int| 0 <= i < cs.len() ==> #[trigger] cs[i] < 14,
    ensures
        words(text_of(cs)) == singles(symbols(cs)),
        encoded(text_of(cs)) == Some(spelled(cs)),
{
    lemma_symbols_of_legible(cs);
    let ws = singles(symbols(cs));
    assert forall|k: int| 0 <= k < ws.len() implies is_word(#[trigger] ws[k]) by {
        lemma_encode_symbol(cs[k]);
    }
    lemma_words_of_joined(ws);
    lemma_encode_singles(cs, cs.len() as int);
    assert(cs.take(cs.len() as int) =~= cs);
}

/// The encodings of the first `n` symbols are the codons of their values.
pub proof fn lemma_encode_singles(cs: Seq<nat>, n: int)
    requires
        0 <= n <= cs.len(),
        forall|i: int| 0 <= i < cs.len() ==> #[trigger] cs[i] < 14,
    ensures
        encode_all(singles(symbols(cs)), n) == Some(spelled(cs.take(n))),
    decreases n,
{
    lemma_symbols_of_legible(cs);
    if n == 0 {
        assert(spelled(cs.take(0)) =~= Seq::<bool>::empty());
    } else {
        lemma_encode_singles(cs, n - 1);
        lemma_encode_symbol(cs[n - 1]);
        assert(singles(symbols(cs))[n - 1] == seq![alphabet()[cs[n - 1] as int]]);
        assert(cs.take(n).drop_last() =~= cs.take(n - 1));
        assert(cs.take(n).last() == cs[n - 1]);
    }
}

/// Whether the words are single symbols that take turns: a digit at every
/// even place, counting from zero, and an operator at every odd place.
pub open spec fn takes_turns(ws: Seq<Seq<char>>) -> bool {
    forall|k: int|
        0 <= k < ws.len() ==> {
            let w = #[trigger] ws[k];
            &&& w.len() == 1
            &&& if k % 2 == 0 {
                is_digit(w[0])
            } else {
                w[0] == '+' || w[0] == '-' || w[0] == '*' || w[0] == '/'
            }
        }
}

/// A repaired genome survives a round trip: encoding the text it spells
/// gives the genome back, so the text is spelled again, and repairing it
/// once more changes nothing.
pub proof fn lemma_round_trip(bits: Seq<bool>)
    ensures
        encoded(decoded(repaired(bits))) == Some(repaired(bits)),
        repaired(repaired(bits)) == repaired(bits),
        decoded(repaired(repaired(bits))) == decoded(repaired(bits)),
        repaired(bits).len() % 4 == 0,
{
    let kept = alternate(codons(bits));
    lemma_alternate_alternates(codons(bits));
    lemma_codons_of_spelled(kept);
    lemma_encoded_text(kept);
    lemma_alternate_fixed(kept);
}

/// The text that a repaired genome spells is empty or starts with a digit,
/// and digits and operators take turns in it: no two neighbours are of the
/// same kind.
pub proof fn lemma_repaired_takes_turns(bits: Seq<bool>)
    ensures
        takes_turns(words(decoded(repaired(bits)))),
        words(decoded(repaired(bits))).len() == alternate(codons(bits)).len(),
{
    let kept = alternate(codons(bits));
    lemma_alternate_alternates(codons(bits));
    lemma_codons_of_spelled(kept);
    lemma_encoded_text(kept);
    lemma_symbols_of_legible(kept);
    let ws = words(decoded(repaired(bits)));
    assert(ws == singles(symbols(kept)));
    assert forall|k: int| 0 <= k < ws.len() implies {
        let w = #[trigger] ws[k];
        &&& w.len() == 1
        &&& if k % 2 == 0 {
            is_digit(w[0])
        } else {
            w[0] == '+' || w[0] == '-' || w[0] == '*' || w[0] == '/'
        }
    } by {
        assert(fits_slot(kept[k], k % 2 == 1));
        assert(ws[k] == seq![alphabet()[kept[k] as int]]);
    }
}

/// A genome of fewer than four bits spells the empty text.
pub proof fn lemma_decoded_empty(bits: Seq<bool>)
    requires
        bits.len() < 4,
    ensures
        decoded(bits).len() == 0,
{
    assert(codons(bits) =~= Seq::<nat>::empty());
    assert(singles(symbols(codons(bits))) =~= Seq::<Seq<char>>::empty());
}

/// Bits that follow the last complete codon do not change the text.
pub proof fn lemma_decoded_ignores_tail(bits: Seq<bool>)
    ensures
        decoded(bits) == decoded(bits.take(bits.len() - bits.len() % 4)),
{
    let whole = bits.take(bits.len() - bits.len() % 4);
    assert forall|k: int| 0 <= k < bits.len() / 4 implies codon(bits, k) == codon(whole, k) by {
        assert(bits.subrange(4 * k, 4 * k + 4) =~= whole.subrange(4 * k, 4 * k + 4));
    }
    assert(codons(bits) =~= codons(whole));
}

impl Chromosome {
    /// A genome of no bits. It has no fitness until it is evaluated.
    pub fn new() -> (c: Chromosome)
        ensures
            c.bits@.len() == 0,
            c.fitness is None,
    {
        Chromosome { bits: Vec::new(), fitness: None }
    }

    /// The number of bits.
    pub fn len(&self) -> (n: usize)
        ensures
            n == self.bits@.len(),
    {
        self.bits.len()
    }

    /// The value of the codon that starts at bit `i`.
    fn codon_at(&self, i: usize) -> (val: usize)
        requires
            i % 4 == 0,
            i + 4 <= self.bits@.len(),
        ensures
            val == codon(self.bits@, i as int / 4),
            val < 16,
    {
        let end: usize = self.bits.len().min(i + 4);
        let group = &self.bits.as_slice()[i..end];
        proof {
            lemma_codon_bound(group@);
        }
        from_binary(group)
    }

    /// The text that the genome spells: the symbols of its codons, separated
    /// by single spaces.
    pub fn decode(&self) -> (text: String)
        ensures
            text@ == decoded(self.bits@),
    {
        let mut text = String::new();
        let mut started = false;
        let mut i: usize = 0;
        proof {
            assert(codons(self.bits@).take(0) =~= Seq::<nat>::empty());
        }
        while self.bits.len() - i >= 4
            invariant
                i <= self.bits@.len(),
                i % 4 == 0,
                text@ == text_of(codons(self.bits@).take(i as int / 4)),
                started == (symbols(codons(self.bits@).take(i as int / 4)).len() > 0),
            decreases self.bits@.len() - i,
        {
            let val = self.codon_at(i);
            proof {
                let k = i as int / 4;
                let cs = codons(self.bits@);
                assert(cs.take(k + 1) =~= cs.take(k).push(cs[k]));
                lemma_text_of_push(cs.take(k), cs[k]);
            }
            if val < 14 {
                push_symbol(&mut text, started, val);
                started = true;
            }
            i += 4;
        }
        proof {
            let cs = codons(self.bits@);
            assert(cs.take(i as int / 4) =~= cs);
        }
        text
    }

    /// Replaces the bits by the encoding of `exp`. When `exp` cannot be
    /// encoded the genome stays as it is.
    pub fn set_expr(&mut self, exp: &str) -> (out: Result<(), EncodeError>)
        ensures
            final(self).fitness == old(self).fitness,
            match out {
                Ok(_) => encoded(exp@) == Some(final(self).bits@) && final(self).bits@.len() % 4
                    == 0,
                Err(e) => {
                    &&& encoded(exp@) is None
                    &&& final(self).bits@ == old(self).bits@
                    &&& e.position < words(exp@).len()
                    &&& encode_word(words(exp@)[e.position as int]) is None
                    &&& encode_all(words(exp@), e.position as int) is Some
                },
            },
    {
        match encode_expression(exp) {
            Ok(bits) => {
                self.bits = bits;
                Ok(())
            },
            Err(e) => Err(e),
        }
    }

    /// The text of the codons that survive repair: digits and operators in
    /// turn, a digit first, separated by single spaces.
    fn repaired_text(&self) -> (text: String)
        ensures
            text@ == text_of(alternate(codons(self.bits@))),
    {
        let mut text = String::new();
        let mut started = false;
        let mut op = false;
        let mut i: usize = 0;
        proof {
            assert(codons(self.bits@).take(0) =~= Seq::<nat>::empty());
        }
        while self.bits.len() - i >= 4
            invariant
                i <= self.bits@.len(),
                i % 4 == 0,
                text@ == text_of(alternate(codons(self.bits@).take(i as int / 4))),
                started == (alternate(codons(self.bits@).take(i as int / 4)).len() > 0),
                op == (alternate(codons(self.bits@).take(i as int / 4)).len() % 2 == 1),
            decreases self.bits@.len() - i,
        {
            let val = self.codon_at(i);
            proof {
                let k = i as int / 4;
                let cs = codons(self.bits@);
                let kept = alternate(cs.take(k));
                assert(cs.take(k + 1) =~= cs.take(k).push(cs[k]));
                assert(cs.take(k + 1).drop_last() =~= cs.take(k));
                lemma_alternate_alternates(cs.take(k));
                lemma_symbols_of_legible(kept);
                lemma_text_of_push(kept, cs[k]);
            }
            if op {
                if 10 <= val && val <= 13 {
                    push_symbol(&mut text, started, val);
                    started = true;
                    op = false;
                }
            } else {
                if val <= 9 {
                    push_symbol(&mut text, started, val);
                    started = true;
                    op = true;
                }
            }
            i += 4;
        }
        proof {
            let cs = codons(self.bits@);
            assert(cs.take(i as int / 4) =~= cs);
        }
        text
    }

    /// Repairs the genome: only the codons that take turns as digit and
    /// operator, a digit first, are kept. The genome is decoded, the symbols
    /// that stand out of turn are dropped, and the rest is encoded again.
    pub fn correct(&mut self)
        ensures
            final(self).bits@ == repaired(old(self).bits@),
            final(self).fitness == old(self).fitness,
            final(self).bits@.len() % 4 == 0,
            codons(final(self).bits@) == alternate(codons(old(self).bits@)),
            is_alternating(codons(final(self).bits@)),
            decoded(final(self).bits@) == text_of(alternate(codons(old(self).bits@))),
            encoded(decoded(final(self).bits@)) == Some(final(self).bits@),
    {
        let text = self.repaired_text();
        proof {
            let kept = alternate(codons(self.bits@));
            lemma_alternate_alternates(codons(self.bits@));
            lemma_encoded_text(kept);
            lemma_codons_of_spelled(kept);
        }
        match encode_expression(text.as_str()) {
            Ok(bits) => {
                self.bits = bits;
            },
            Err(_) => {},
        }
    }
}

impl Clone for Chromosome {
    /// A copy with the same bits and the same fitness.
    fn clone(&self) -> (copy: Self)
        ensures
            copy.bits@ == self.bits@,
            copy.fitness == self.fitness,
    {
        Chromosome { bits: self.bits.clone(), fitness: self.fitness }
    }
}

} // verus!
