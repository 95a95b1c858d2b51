//! The three text transforms: alternating case, randomized case, and
//! character spacing.
//!
//! Each transform scans its input once, left to right. A letter may expand
//! into several characters when its Unicode case mapping is wider than one
//! character; non-alphabetic characters always pass through unchanged.

use vstd::prelude::*;

use crate::text::{read_chars, string_from_chars};
use crate::unicode::{is_alpha, is_upper, lower_of, upper_of, to_lower_chars, to_upper_chars};

verus! {

/// The case mapping of `c` selected by `up`: uppercase when `up` is set,
/// lowercase otherwise.
pub open spec fn apply_case(c: char, up: bool) -> Seq<char> {
    if up {
        upper_of(c)
    } else {
        lower_of(c)
    }
}

/// Whether the first alphabetic character of `s` is uppercase; false when `s`
/// has no alphabetic character.
pub open spec fn first_alpha_upper(s: Seq<char>) -> bool
    decreases s.len(),
{
    if s.len() == 0 {
        false
    } else if is_alpha(s[0]) {
        is_upper(s[0])
    } else {
        first_alpha_upper(s.drop_first())
    }
}

/// `s` with the case of its letters alternating, starting from the flag
/// `cap`: each letter is emitted in the case the flag selects and flips the
/// flag, while every other character passes through and leaves the flag
/// untouched.
pub open spec fn alternate_from(s: Seq<char>, cap: bool) -> Seq<char>
    decreases s.len(),
{
    if s.len() == 0 {
        Seq::empty()
    } else if is_alpha(s[0]) {
        apply_case(s[0], cap) + alternate_from(s.drop_first(), !cap)
    } else {
        seq![s[0]] + alternate_from(s.drop_first(), cap)
    }
}

/// `s` with the case of its letters alternating, starting from the case of
/// its first letter.
pub open spec fn alternated(s: Seq<char>) -> Seq<char> {
    alternate_from(s, first_alpha_upper(s))
}

/// `s` with each letter's case chosen by the matching entry of `coins`
/// (uppercase on true), and every other character passed through.
pub open spec fn randomized_with(s: Seq<char>, coins: Seq<bool>) -> Seq<char>
    decreases s.len(),
{
    if s.len() == 0 {
        Seq::empty()
    } else {
        let head = if is_alpha(s[0]) {
            apply_case(s[0], coins[0])
        } else {
            seq![s[0]]
        };
        head + randomized_with(s.drop_first(), coins.drop_first())
    }
}

/// Every character of the input followed by a single space.
pub open spec fn spaceified(s: Seq<char>) -> Seq<char>
    decreases s.len(),
{
    if s.len() == 0 {
        Seq::empty()
    } else {
        seq![s[0], ' '] + spaceified(s.drop_first())
    }
}

/// Whether the first alphabetic character of `chars` is uppercase.
fn starts_upper(chars: &Vec<char>) -> (cap: bool)
    ensures
        cap == first_alpha_upper(chars@),
{
    let mut j: usize = 0;
    proof {
        assert(chars@.skip(0) =~= chars@);
    }
    while j < chars.len()
        invariant
            j <= chars@.len(),
            first_alpha_upper(chars@) == first_alpha_upper(chars@.skip(j as int)),
        decreases chars@.len() - j,
    {
        let c = chars[j];
        proof {
            assert(chars@.skip(j as int)[0] == chars@[j as int]);
            assert(chars@.skip(j as int).drop_first() =~= chars@.skip(j as int + 1));
        }
        if c.is_alphabetic() {
            return c.is_uppercase();
        }
        j += 1;
    }
    proof {
        assert(chars@.skip(chars@.len() as int) =~= Seq::<char>::empty());
    }
    false
}

/// Alternate the case of each letter of each word, skipping non-alphabetic
/// characters.
///
/// Alternation starts with the capitalization of the first letter of the
/// first word, and continues across words: non-alphabetic characters pass
/// through without changing the alternation state.
pub fn alternate(text: &str) -> (r: String)
    ensures
        r@ == alternated(text@),
{
    let chars = read_chars(text);
    let mut cap = starts_upper(&chars);
    let ghost cap0 = cap;
    let mut out: Vec<char> = Vec::new();
    let mut i: usize = 0;
    proof {
        assert(text@.skip(0) =~= text@);
        assert(out@ + alternate_from(text@, cap) =~= alternate_from(text@, cap));
    }
    while i < chars.len()
        invariant
            i <= chars@.len(),
            chars@ == text@,
            alternate_from(text@, cap0) == out@ + alternate_from(text@.skip(i as int), cap),
        decreases chars@.len() - i,
    {
        let c = chars[i];
        proof {
            assert(text@.skip(i as int)[0] == text@[i as int]);
            assert(text@.skip(i as int).drop_first() =~= text@.skip(i as int + 1));
        }
        if c.is_alphabetic() {
            let piece = if cap {
                to_upper_chars(c)
            } else {
                to_lower_chars(c)
            };
            proof {
                assert(out@ + (piece@ + alternate_from(text@.skip(i as int + 1), !cap)) =~= (out@
                    + piece@) + alternate_from(text@.skip(i as int + 1), !cap));
            }
            let mut p: usize = 0;
            let ghost out_before = out@;
            while p < piece.len()
                invariant
                    p <= piece@.len(),
                    out@ == out_before + piece@.take(p as int),
                decreases piece@.len() - p,
            {
                proof {
                    assert(piece@.take(p as int).push(piece@[p as int]) =~= piece@.take(
                        p as int + 1,
                    ));
                }
                out.push(piece[p]);
                p += 1;
            }
            proof {
                assert(piece@.take(piece@.len() as int) =~= piece@);
            }
            cap = !cap;
        } else {
            proof {
                assert(out@ + (seq![text@[i as int]] + alternate_from(
                    text@.skip(i as int + 1),
                    cap,
                )) =~= out@.push(text@[i as int]) + alternate_from(text@.skip(i as int + 1), cap));
            }
            out.push(c);
        }
        i += 1;
    }
    proof {
        assert(text@.skip(text@.len() as int) =~= Seq::<char>::empty());
        assert(out@ + Seq::<char>::empty() =~= out@);
    }
    string_from_chars(&out)
}

/// Relies on `rand::random`: a fresh draw from the thread-local generator.
/// Nothing is promised about the value; two calls may differ.
pub assume_specification<T>[ rand::random::<T> ]() -> (r: T)
    where
        rand::distributions::Standard: rand::distributions::Distribution<T>,
;

proof fn lemma_randomized_with_push(s: Seq<char>, coins: Seq<bool>, c: char, b: bool)
    requires
        coins.len() == s.len(),
    ensures
        randomized_with(s.push(c), coins.push(b)) == randomized_with(s, coins) + (if is_alpha(c) {
            apply_case(c, b)
        } else {
            seq![c]
        }),
    decreases s.len(),
{
    let head = if is_alpha(c) {
        apply_case(c, b)
    } else {
        seq![c]
    };
    if s.len() == 0 {
        assert(s.push(c)[0] == c);
        assert(coins.push(b)[0] == b);
        assert(s.push(c).drop_first() =~= Seq::<char>::empty());
        assert(randomized_with(s.push(c).drop_first(), coins.push(b).drop_first())
            == Seq::<char>::empty());
        assert(head + Seq::<char>::empty() =~= head);
        assert(randomized_with(s.push(c), coins.push(b)) =~= head);
        assert(randomized_with(s, coins) + head =~= head);
    } else {
        assert(s.push(c)[0] == s[0]);
        assert(coins.push(b)[0] == coins[0]);
        assert(s.push(c).drop_first() =~= s.drop_first().push(c));
        assert(coins.push(b).drop_first() =~= coins.drop_first().push(b));
        lemma_randomized_with_push(s.drop_first(), coins.drop_first(), c, b);
        let head0 = if is_alpha(s[0]) {
            apply_case(s[0], coins[0])
        } else {
            seq![s[0]]
        };
        assert(head0 + (randomized_with(s.drop_first(), coins.drop_first()) + head) =~= (head0
            + randomized_with(s.drop_first(), coins.drop_first())) + head);
    }
}

/// Randomize the case of each letter of each word, passing non-alphabetic
/// characters through.
///
/// Each letter's case is an independent draw; the result is tied to the input
/// only through the sequence of draws, so any two runs agree up to the case
/// chosen for each letter.
pub fn randomize(text: &str) -> (r: String)
    ensures
        exists|coins: Seq<bool>|
            #![auto]
            coins.len() == text@.len() && r@ == randomized_with(text@, coins),
{
    let chars = read_chars(text);
    let mut out: Vec<char> = Vec::new();
    let ghost mut coins: Seq<bool> = Seq::empty();
    let mut i: usize = 0;
    proof {
        assert(text@.take(0) =~= Seq::<char>::empty());
    }
    while i < chars.len()
        invariant
            i <= chars@.len(),
            chars@ == text@,
            coins.len() == i,
            out@ == randomized_with(text@.take(i as int), coins),
        decreases chars@.len() - i,
    {
        let c = chars[i];
        proof {
            assert(text@.take(i as int).push(text@[i as int]) =~= text@.take(i as int + 1));
        }
        if c.is_alphabetic() {
            let up: bool = rand::random();
            let piece = if up {
                to_upper_chars(c)
            } else {
                to_lower_chars(c)
            };
            proof {
                lemma_randomized_with_push(text@.take(i as int), coins, c, up);
                coins = coins.push(up);
            }
            let mut p: usize = 0;
            let ghost out_before = out@;
            while p < piece.len()
                invariant
                    p <= piece@.len(),
                    out@ == out_before + piece@.take(p as int),
                decreases piece@.len() - p,
            {
                proof {
                    assert(piece@.take(p as int).push(piece@[p as int]) =~= piece@.take(
                        p as int + 1,
                    ));
                }
                out.push(piece[p]);
                p += 1;
            }
            proof {
                assert(piece@.take(piece@.len() as int) =~= piece@);
            }
        } else {
            proof {
                lemma_randomized_with_push(text@.take(i as int), coins, c, false);
                assert(out@ + seq![c] =~= out@.push(c));
                coins = coins.push(false);
            }
            out.push(c);
        }
        i += 1;
    }
    proof {
        assert(text@.take(text@.len() as int) =~= text@);
    }
    string_from_chars(&out)
}

/// Inserts a space after every character of the input.
pub fn spaceify(text: &str) -> (r: String)
    ensures
        r@ == spaceified(text@),
{
    let chars = read_chars(text);
    let mut out: Vec<char> = Vec::new();
    let mut i: usize = 0;
    proof {
        assert(text@.skip(0) =~= text@);
        assert(out@ + spaceified(text@) =~= spaceified(text@));
    }
    while i < chars.len()
        invariant
            i <= chars@.len(),
            chars@ == text@,
            spaceified(text@) == out@ + spaceified(text@.skip(i as int)),
        decreases chars@.len() - i,
    {
        proof {
            assert(text@.skip(i as int)[0] == text@[i as int]);
            assert(text@.skip(i as int).drop_first() =~= text@.skip(i as int + 1));
            assert(out@ + (seq![text@[i as int], ' '] + spaceified(text@.skip(i as int + 1)))
                =~= out@.push(text@[i as int]).push(' ') + spaceified(text@.skip(i as int + 1)));
        }
        out.push(chars[i]);
        out.push(' ');
        i += 1;
    }
    proof {
        assert(text@.skip(text@.len() as int) =~= Seq::<char>::empty());
        assert(out@ + Seq::<char>::empty() =~= out@);
    }
    string_from_chars(&out)
}

} // verus!
