//! Bit strings and the numbers they spell.

use vstd::prelude::*;

verus! {

/// The number that a string of bits spells, most significant bit first.
/// The empty string spells zero.
pub open spec fn bits_value(bits: Seq<bool>) -> nat
    decreases bits.len(),
{
    if bits.len() == 0 {
        0
    } else {
        2 * bits_value(bits.drop_last()) + if bits.last() { 1nat } else { 0nat }
    }
}

/// The shortest spelling of `n`, most significant bit first. Zero is spelled
/// by a single `false`.
pub open spec fn bits_of(n: nat) -> Seq<bool>
    decreases n,
{
    if n < 2 {
        seq![n == 1]
    } else {
        bits_of(n / 2).push(n % 2 == 1)
    }
}

/// A prefix of a bit string never spells more than the whole string.
pub proof fn lemma_prefix_value(bits: Seq<bool>, k: int)
    requires
        0 <= k <= bits.len(),
    ensures
        bits_value(bits.take(k)) <= bits_value(bits),
    decreases bits.len(),
{
    if k == bits.len() {
        assert(bits.take(k) =~= bits);
    } else {
        lemma_prefix_value(bits.drop_last(), k);
        assert(bits.drop_last().take(k) =~= bits.take(k));
    }
}

/// Spelling a number and reading the spelling back gives the number.
pub proof fn lemma_value_of_bits(n: nat)
    ensures
        bits_value(bits_of(n)) == n,
        bits_of(n).len() >= 1,
        n > 0 ==> bits_of(n)[0],
    decreases n,
{
    if n < 2 {
        let s = seq![n == 1];
        assert(s.drop_last() =~= Seq::<bool>::empty());
        assert(bits_value(s.drop_last()) == 0);
    } else {
        lemma_value_of_bits(n / 2);
        let s = bits_of(n / 2).push(n % 2 == 1);
        assert(s.drop_last() =~= bits_of(n / 2));
    }
}

/// Reads a bit string as a number, most significant bit first.
pub fn from_binary(bits: &[bool]) -> (value: usize)
    requires
        bits_value(bits@) <= usize::MAX,
    ensures
        value == bits_value(bits@),
{
    let mut acc: usize = 0;
    let mut i: usize = 0;
    while i < bits.len()
        invariant
            i <= bits.len(),
            acc == bits_value(bits@.take(i as int)),
            bits_value(bits@) <= usize::MAX,
        decreases bits.len() - i,
    {
        proof {
            lemma_prefix_value(bits@, i + 1);
            assert(bits@.take(i + 1).drop_last() =~= bits@.take(i as int));
        }
        let low: usize = if bits[i] { 1 } else { 0 };
        acc = acc * 2 + low;
        i += 1;
    }
    proof {
        assert(bits@.take(i as int) =~= bits@);
    }
    acc
}

/// Spells a number in as few bits as it takes, most significant bit first.
pub fn binary(x: usize) -> (bits: Vec<bool>)
    ensures
        bits@ == bits_of(x as nat),
{
    let mut low_first: Vec<bool> = Vec::new();
    let mut rest: usize = x;
    loop
        invariant_except_break
            bits_of(x as nat) == bits_of(rest as nat) + low_first@.reverse(),
        ensures
            bits_of(x as nat) == low_first@.reverse(),
        decreases rest,
    {
        let ghost before = low_first@;
        let bit = rest % 2 == 1;
        low_first.push(bit);
        proof {
            assert(low_first@.reverse() =~= seq![bit] + before.reverse());
            if rest >= 2 {
                assert(bits_of(rest as nat) == bits_of((rest / 2) as nat).push(bit));
                assert(bits_of((rest / 2) as nat).push(bit) + before.reverse() =~= bits_of(
                    (rest / 2) as nat,
                ) + low_first@.reverse());
            } else {
                assert(bits_of(rest as nat) =~= seq![bit]);
            }
        }
        rest = rest / 2;
        if rest == 0 {
            break ;
        }
    }
    let mut bits: Vec<bool> = Vec::new();
    let mut i: usize = low_first.len();
    while i > 0
        invariant
            i <= low_first.len(),
            bits@.len() == low_first.len() - i,
            forall|k: int| 0 <= k < bits@.len() ==> bits@[k] == low_first@[low_first.len() - 1 - k],
        decreases i,
    {
        i -= 1;
        bits.push(low_first[i]);
    }
    proof {
        assert(bits@ =~= low_first@.reverse());
    }
    bits
}

} // verus!
