//! Text as a sequence of characters: blanks, words and decimal numerals.

use vstd::prelude::*;

verus! {

/// The characters of `text`, in order.
pub fn chars_of(text: &str) -> (chars: Vec<char>)
    ensures
        chars@ == text@,
{
    let mut chars: Vec<char> = Vec::new();
    for c in it: text.chars()
        invariant
            it.seq() == text@,
            chars@ == it.seq().take(it.index() as int),
    {
        chars.push(c);
        proof {
            assert(chars@ =~= it.seq().take(it.index() + 1));
        }
    }
    proof {
        assert(chars@ =~= text@);
    }
    chars
}

/// Whether `c` is a blank: one of the characters that Unicode counts as
/// white space.
pub open spec fn is_blank(c: char) -> bool {
    let n = c as u32;
    ||| 0x09 <= n <= 0x0D
    ||| n == 0x20
    ||| n == 0x85
    ||| n == 0xA0
    ||| n == 0x1680
    ||| 0x2000 <= n <= 0x200A
    ||| n == 0x2028
    ||| n == 0x2029
    ||| n == 0x202F
    ||| n == 0x205F
    ||| n == 0x3000
}

/// Whether `c` is one of the ten decimal digits.
pub open spec fn is_digit(c: char) -> bool {
    '0' <= c <= '9'
}

/// The number that a decimal digit stands for.
pub open spec fn digit_value(c: char) -> nat
    recommends
        is_digit(c),
{
    (c as u32 - '0' as u32) as nat
}

/// Tells whether `c` is a blank.
pub fn blank(c: char) -> (b: bool)
    ensures
        b == is_blank(c),
{
    let n: u32 = c as u32;
    (0x09 <= n && n <= 0x0D) || n == 0x20 || n == 0x85 || n == 0xA0 || n == 0x1680 || (0x2000 <= n
        && n <= 0x200A) || n == 0x2028 || n == 0x2029 || n == 0x202F || n == 0x205F || n == 0x3000
}

/// Tells whether `c` is a decimal digit.
pub fn digit(c: char) -> (b: bool)
    ensures
        b == is_digit(c),
{
    '0' <= c && c <= '9'
}

/// How many characters stand at the front of `s` before its first blank.
pub open spec fn word_len(s: Seq<char>) -> nat
    decreases s.len(),
{
    if s.len() == 0 || is_blank(s[0]) {
        0
    } else {
        1 + word_len(s.drop_first())
    }
}

/// The words of `s`: its longest runs of characters that are not blank, in
/// order. Blanks only separate; no word is empty.
pub open spec fn words(s: Seq<char>) -> Seq<Seq<char>>
    decreases s.len(),
{
    if s.len() == 0 {
        Seq::empty()
    } else if is_blank(s[0]) {
        words(s.drop_first())
    } else {
        proof {
            lemma_word_len(s);
        }
        seq![s.take(word_len(s) as int)] + words(s.skip(word_len(s) as int))
    }
}

/// Whether `w` could be a word: not empty, and free of blanks.
pub open spec fn is_word(w: Seq<char>) -> bool {
    w.len() > 0 && forall|i: int| 0 <= i < w.len() ==> !is_blank(#[trigger] w[i])
}

/// The words `ws` written out with a single space between neighbours.
pub open spec fn joined(ws: Seq<Seq<char>>) -> Seq<char>
    decreases ws.len(),
{
    if ws.len() == 0 {
        Seq::empty()
    } else if ws.len() == 1 {
        ws[0]
    } else {
        joined(ws.drop_last()) + seq![' '] + ws.last()
    }
}

/// What each vector of a sequence holds.
pub open spec fn views(v: Seq<Vec<char>>) -> Seq<Seq<char>> {
    Seq::new(v.len(), |i: int| v[i]@)
}

/// The first word of a text is never longer than the text, and whatever
/// follows it starts with a blank.
pub proof fn lemma_word_len(s: Seq<char>)
    ensures
        word_len(s) <= s.len(),
        forall|i: int| 0 <= i < word_len(s) ==> !is_blank(#[trigger] s[i]),
        word_len(s) < s.len() ==> is_blank(s[word_len(s) as int]),
    decreases s.len(),
{
    if s.len() == 0 || is_blank(s[0]) {
    } else {
        let t = s.drop_first();
        lemma_word_len(t);
        assert forall|i: int| 0 <= i < word_len(s) implies !is_blank(#[trigger] s[i]) by {
            if i > 0 {
                assert(s[i] == t[i - 1]);
            }
        }
        if word_len(s) < s.len() {
            assert(s[word_len(s) as int] == t[word_len(t) as int]);
        }
    }
}

/// A word followed by nothing, or by a blank, is the first word of the text.
pub proof fn lemma_word_len_of_prefix(w: Seq<char>, rest: Seq<char>)
    requires
        forall|i: int| 0 <= i < w.len() ==> !is_blank(#[trigger] w[i]),
        rest.len() == 0 || is_blank(rest[0]),
    ensures
        word_len(w + rest) == w.len(),
    decreases w.len(),
{
    let s = w + rest;
    if w.len() == 0 {
        assert(s =~= rest);
    } else {
        assert(s[0] == w[0]);
        assert(s.drop_first() =~= w.drop_first() + rest);
        assert forall|i: int| 0 <= i < w.drop_first().len() implies !is_blank(
            #[trigger] w.drop_first()[i],
        ) by {
            assert(w.drop_first()[i] == w[i + 1]);
        }
        lemma_word_len_of_prefix(w.drop_first(), rest);
    }
}

/// Every word of a text is a word: not empty, and free of blanks.
pub proof fn lemma_words_are_words(s: Seq<char>)
    ensures
        forall|k: int| 0 <= k < words(s).len() ==> is_word(#[trigger] words(s)[k]),
    decreases s.len(),
{
    if s.len() == 0 {
        assert(words(s).len() == 0);
    } else if is_blank(s[0]) {
        lemma_words_are_words(s.drop_first());
        assert(words(s) == words(s.drop_first()));
    } else {
        let n = word_len(s) as int;
        lemma_word_len(s);
        lemma_words_are_words(s.skip(n));
        assert(is_word(s.take(n)));
        let ws = seq![s.take(n)] + words(s.skip(n));
        assert(words(s) == ws);
        assert forall|k: int| 0 <= k < ws.len() implies is_word(#[trigger] ws[k]) by {
            if k > 0 {
                assert(ws[k] == words(s.skip(n))[k - 1]);
            } else {
                assert(ws[0] == s.take(n));
            }
        }
    }
}

/// Joining puts the first word in front: the words after it follow a space.
pub proof fn lemma_joined_front(ws: Seq<Seq<char>>)
    requires
        ws.len() >= 2,
    ensures
        joined(ws) == ws[0] + seq![' '] + joined(ws.drop_first()),
    decreases ws.len(),
{
    if ws.len() == 2 {
        assert(ws.drop_last() =~= seq![ws[0]]);
        assert(ws.drop_first() =~= seq![ws[1]]);
        assert(joined(ws.drop_last()) == ws[0]);
        assert(joined(ws.drop_first()) == ws[1]);
    } else {
        lemma_joined_front(ws.drop_last());
        assert(ws.drop_last().drop_first() =~= ws.drop_first().drop_last());
        assert(ws.drop_last()[0] == ws[0]);
        assert(ws.drop_first().last() == ws.last());
        assert(joined(ws) =~= ws[0] + seq![' '] + joined(ws.drop_first()));
    }
}

/// Splitting undoes joining: the words of a text that was joined from words
/// are those words.
pub proof fn lemma_words_of_joined(ws: Seq<Seq<char>>)
    requires
        forall|k: int| 0 <= k < ws.len() ==> is_word(#[trigger] ws[k]),
    ensures
        words(joined(ws)) == ws,
    decreases ws.len(),
{
    if ws.len() == 0 {
        assert(words(joined(ws)) =~= ws);
    } else {
        let w = ws[0];
        assert(is_word(w));
        let rest = ws.drop_first();
        assert forall|k: int| 0 <= k < rest.len() implies is_word(#[trigger] rest[k]) by {
            assert(rest[k] == ws[k + 1]);
        }
        let tail: Seq<char> = if ws.len() == 1 {
            Seq::empty()
        } else {
            seq![' '] + joined(rest)
        };
        let s = joined(ws);
        if ws.len() == 1 {
            assert(s =~= w + tail);
        } else {
            lemma_joined_front(ws);
            assert(s =~= w + tail);
        }
        assert(s[0] == w[0]);
        lemma_word_len_of_prefix(w, tail);
        assert(s.take(w.len() as int) =~= w);
        assert(s.skip(w.len() as int) =~= tail);
        if ws.len() == 1 {
            assert(words(tail) =~= Seq::<Seq<char>>::empty());
            assert(words(s) =~= ws);
        } else {
            assert(is_blank(' '));
            assert(tail.drop_first() =~= joined(rest));
            lemma_words_of_joined(rest);
            assert(words(tail) == rest);
            assert(words(s) =~= ws);
        }
    }
}

/// Splits a text into its words.
pub fn split_words(chars: &Vec<char>) -> (out: Vec<Vec<char>>)
    ensures
        views(out@) == words(chars@),
        forall|k: int| 0 <= k < out@.len() ==> is_word(#[trigger] out@[k]@),
{
    let mut out: Vec<Vec<char>> = Vec::new();
    let mut i: usize = 0;
    proof {
        assert(chars@.skip(0) =~= chars@);
        assert(views(out@) + words(chars@) =~= words(chars@));
    }
    while i < chars.len()
        invariant
            i <= chars.len(),
            words(chars@) == views(out@) + words(chars@.skip(i as int)),
        decreases chars.len() - i,
    {
        let ghost rest = chars@.skip(i as int);
        if blank(chars[i]) {
            proof {
                assert(rest.drop_first() =~= chars@.skip(i + 1));
            }
            i += 1;
        } else {
            let mut word: Vec<char> = Vec::new();
            let start: usize = i;
            while i < chars.len() && !blank(chars[i])
                invariant
                    start <= i <= chars.len(),
                    rest == chars@.skip(start as int),
                    word@ == chars@.subrange(start as int, i as int),
                    word_len(rest) == (i - start) + word_len(chars@.skip(i as int)),
                decreases chars.len() - i,
            {
                proof {
                    assert(chars@.skip(i as int).drop_first() =~= chars@.skip(i + 1));
                }
                word.push(chars[i]);
                proof {
                    assert(word@ =~= chars@.subrange(start as int, i + 1));
                }
                i += 1;
            }
            proof {
                let n = word_len(rest) as int;
                assert(n == i - start);
                assert(rest.take(n) =~= word@);
                assert(rest.skip(n) =~= chars@.skip(i as int));
                assert(views(out@.push(word)) =~= views(out@) + seq![word@]);
            }
            out.push(word);
        }
    }
    proof {
        assert(chars@.skip(i as int) =~= Seq::<char>::empty());
        assert(views(out@) + words(chars@.skip(i as int)) =~= views(out@));
        lemma_words_are_words(chars@);
        assert forall|k: int| 0 <= k < out@.len() implies is_word(#[trigger] out@[k]@) by {
            assert(views(out@)[k] == out@[k]@);
        }
    }
    out
}

/// Whether `w` is a decimal numeral: one digit or more, and digits only.
pub open spec fn is_numeral(w: Seq<char>) -> bool {
    w.len() > 0 && forall|i: int| 0 <= i < w.len() ==> is_digit(#[trigger] w[i])
}

/// The number that a decimal numeral spells.
pub open spec fn numeral_value(w: Seq<char>) -> nat
    decreases w.len(),
{
    if w.len() == 0 {
        0
    } else {
        10 * numeral_value(w.drop_last()) + digit_value(w.last())
    }
}

/// The numeral `w` read as a number no greater than `limit`: nothing when
/// `w` is not a numeral or spells a greater number.
pub open spec fn numeral_within(w: Seq<char>, limit: nat) -> Option<nat> {
    if is_numeral(w) && numeral_value(w) <= limit {
        Some(numeral_value(w))
    } else {
        None
    }
}

/// A numeral spells at least what any of its prefixes spells.
pub proof fn lemma_numeral_prefix(w: Seq<char>, k: int)
    requires
        0 <= k <= w.len(),
    ensures
        numeral_value(w.take(k)) <= numeral_value(w),
    decreases w.len(),
{
    if k == w.len() {
        assert(w.take(k) =~= w);
    } else {
        lemma_numeral_prefix(w.drop_last(), k);
        assert(w.drop_last().take(k) =~= w.take(k));
    }
}

/// Reads a decimal numeral that spells no more than `limit`.
pub fn parse_numeral(word: &[char], limit: u64) -> (value: Option<u64>)
    ensures
        match value {
            Some(v) => numeral_within(word@, limit as nat) == Some(v as nat),
            None => numeral_within(word@, limit as nat) is None,
        },
{
    if word.len() == 0 {
        return None;
    }
    let mut acc: u64 = 0;
    let mut i: usize = 0;
    while i < word.len()
        invariant
            i <= word.len(),
            acc == numeral_value(word@.take(i as int)),
            acc <= limit,
            forall|k: int| 0 <= k < i ==> is_digit(#[trigger] word@[k]),
        decreases word.len() - i,
    {
        let c = word[i];
        if !digit(c) {
            return None;
        }
        let d: u64 = (c as u32 - '0' as u32) as u64;
        proof {
            assert(word@.take(i + 1).drop_last() =~= word@.take(i as int));
            lemma_numeral_prefix(word@, i + 1);
        }
        if d > limit || acc > (limit - d) / 10 {
            return None;
        }
        acc = acc * 10 + d;
        i += 1;
    }
    proof {
        assert(word@.take(i as int) =~= word@);
    }
    Some(acc)
}

} // verus!
