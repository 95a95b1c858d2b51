//! Laws of the transforms.
//!
//! The proofs here relate the transforms to each other and to the shape of
//! their input. Unicode allows a letter's case mapping to be wider than one
//! character (so a transform may change the length of its input); the laws
//! that depend on letters mapping to single letters say so explicitly in
//! their hypotheses, and hold of any text made of such letters.

use vstd::prelude::*;

use crate::transform::{
    alternate_from, alternated, apply_case, first_alpha_upper, randomized_with, spaceified,
};
use crate::unicode::{is_alpha, lower_of, upper_of};

verus! {

/// A letter whose two case mappings are single characters.
pub open spec fn narrow_letter(c: char) -> bool {
    upper_of(c).len() == 1 && lower_of(c).len() == 1
}

/// Text whose letters all have single-character case mappings.
pub open spec fn narrow_letters(s: Seq<char>) -> bool {
    forall|i: int| #![trigger s[i]] 0 <= i < s.len() && is_alpha(s[i]) ==> narrow_letter(s[i])
}

/// A letter whose case mappings are single characters that are again
/// letters.
pub open spec fn plain_letter(c: char) -> bool {
    narrow_letter(c) && is_alpha(upper_of(c)[0]) && is_alpha(lower_of(c)[0])
}

/// Text whose letters all have single-character case mappings that are again
/// letters.
pub open spec fn plain_letters(s: Seq<char>) -> bool {
    forall|i: int| #![trigger s[i]] 0 <= i < s.len() && is_alpha(s[i]) ==> plain_letter(s[i])
}

proof fn lemma_alternate_from_positions(s: Seq<char>, cap: bool)
    requires
        plain_letters(s),
    ensures
        alternate_from(s, cap).len() == s.len(),
        forall|i: int|
            #![trigger s[i]]
            0 <= i < s.len() ==> is_alpha(alternate_from(s, cap)[i]) == is_alpha(s[i]) && (!is_alpha(
                s[i],
            ) ==> alternate_from(s, cap)[i] == s[i]),
    decreases s.len(),
{
    if s.len() > 0 {
        let rest = s.drop_first();
        let cap2 = if is_alpha(s[0]) {
            !cap
        } else {
            cap
        };
        assert(forall|i: int| #![trigger rest[i]] 0 <= i < rest.len() ==> rest[i] == s[i + 1]);
        lemma_alternate_from_positions(rest, cap2);
        let head = if is_alpha(s[0]) {
            apply_case(s[0], cap)
        } else {
            seq![s[0]]
        };
        let r = alternate_from(s, cap);
        assert(head.len() == 1);
        assert(is_alpha(head[0]) == is_alpha(s[0]));
        assert(r == head + alternate_from(rest, cap2));
        assert forall|i: int| 0 <= i < s.len() implies is_alpha(r[i]) == is_alpha(#[trigger] s[i])
            && (!is_alpha(s[i]) ==> r[i] == s[i]) by {
            if i == 0 {
                assert(r[0] == head[0]);
            } else {
                assert(r[i] == alternate_from(rest, cap2)[i - 1]);
                assert(s[i] == rest[i - 1]);
            }
        }
    }
}

/// Case alternation is positionally stable for non-letters: on text whose
/// letters map to single letters, the output has the input's length, has
/// letters exactly where the input has letters, and repeats every non-letter
/// unchanged, in place.
pub proof fn lemma_alternate_keeps_non_letters(s: Seq<char>)
    requires
        plain_letters(s),
    ensures
        alternated(s).len() == s.len(),
        forall|i: int|
            #![trigger s[i]]
            0 <= i < s.len() ==> is_alpha(alternated(s)[i]) == is_alpha(s[i]),
        forall|i: int|
            #![trigger s[i]]
            0 <= i < s.len() && !is_alpha(s[i]) ==> alternated(s)[i] == s[i],
{
    lemma_alternate_from_positions(s, first_alpha_upper(s));
}

/// Alternating case is deterministic: any two results obtained from the same
/// text are the same text.
pub proof fn lemma_alternate_deterministic(t: Seq<char>, r1: Seq<char>, r2: Seq<char>)
    requires
        r1 == alternated(t),
        r2 == alternated(t),
    ensures
        r1 == r2,
{
}

/// The lowercase image of text: each character replaced by its lowercase
/// mapping, character by character.
pub open spec fn folded(s: Seq<char>) -> Seq<char>
    decreases s.len(),
{
    if s.len() == 0 {
        Seq::empty()
    } else {
        lower_of(s[0]) + folded(s.drop_first())
    }
}

proof fn lemma_folded_concat(a: Seq<char>, b: Seq<char>)
    ensures
        folded(a + b) == folded(a) + folded(b),
    decreases a.len(),
{
    if a.len() == 0 {
        assert(a + b =~= b);
        assert(folded(a) + folded(b) =~= folded(b));
    } else {
        assert((a + b).drop_first() =~= a.drop_first() + b);
        lemma_folded_concat(a.drop_first(), b);
        assert((a + b)[0] == a[0]);
        assert(lower_of(a[0]) + (folded(a.drop_first()) + folded(b)) =~= (lower_of(a[0]) + folded(
            a.drop_first(),
        )) + folded(b));
    }
}

/// A letter whose case mappings both collapse, character by character, to
/// the letter's own lowercase mapping.
pub open spec fn fold_stable(c: char) -> bool {
    folded(upper_of(c)) == lower_of(c) && folded(lower_of(c)) == lower_of(c)
}

/// Text whose letters are all fold-stable.
pub open spec fn fold_stable_text(s: Seq<char>) -> bool {
    forall|i: int| #![trigger s[i]] 0 <= i < s.len() && is_alpha(s[i]) ==> fold_stable(s[i])
}

/// Randomizing case preserves character identity up to case: whatever the
/// draws, the result of `randomize` has the same lowercase image as the
/// input (on fold-stable text).
pub proof fn lemma_randomize_preserves_letters(s: Seq<char>, coins: Seq<bool>)
    requires
        coins.len() == s.len(),
        fold_stable_text(s),
    ensures
        folded(randomized_with(s, coins)) == folded(s),
    decreases s.len(),
{
    if s.len() > 0 {
        let rest = s.drop_first();
        assert(forall|i: int| #![trigger rest[i]] 0 <= i < rest.len() ==> rest[i] == s[i + 1]);
        lemma_randomize_preserves_letters(rest, coins.drop_first());
        let head = if is_alpha(s[0]) {
            apply_case(s[0], coins[0])
        } else {
            seq![s[0]]
        };
        lemma_folded_concat(head, randomized_with(rest, coins.drop_first()));
        if is_alpha(s[0]) {
            assert(fold_stable(s[0]));
        } else {
            assert(head.drop_first() =~= Seq::<char>::empty());
            assert(folded(head.drop_first()) == Seq::<char>::empty());
            assert(lower_of(s[0]) + Seq::<char>::empty() =~= lower_of(s[0]));
        }
        assert(folded(head) == lower_of(s[0]));
    }
}

/// Randomizing case preserves length on text whose letters have
/// single-character case mappings.
pub proof fn lemma_randomize_same_length(s: Seq<char>, coins: Seq<bool>)
    requires
        coins.len() == s.len(),
        narrow_letters(s),
    ensures
        randomized_with(s, coins).len() == s.len(),
    decreases s.len(),
{
    if s.len() > 0 {
        let rest = s.drop_first();
        assert(forall|i: int| #![trigger rest[i]] 0 <= i < rest.len() ==> rest[i] == s[i + 1]);
        lemma_randomize_same_length(rest, coins.drop_first());
    }
}

/// Spacing doubles the length and interleaves: position `2 * i` of
/// `spaceified(s)` holds the character `s[i]` and position `2 * i + 1` holds
/// the inserted space.
pub proof fn lemma_spaceified_positions(s: Seq<char>)
    ensures
        spaceified(s).len() == 2 * s.len(),
        forall|i: int|
            #![trigger s[i]]
            0 <= i < s.len() ==> spaceified(s)[2 * i] == s[i] && spaceified(s)[2 * i + 1] == ' ',
    decreases s.len(),
{
    if s.len() > 0 {
        let rest = s.drop_first();
        lemma_spaceified_positions(rest);
        let r = spaceified(s);
        assert(r == seq![s[0], ' '] + spaceified(rest));
        assert forall|i: int| 0 <= i < s.len() implies r[2 * i] == #[trigger] s[i] && r[2 * i + 1]
            == ' ' by {
            if i > 0 {
                assert(r[2 * i] == spaceified(rest)[2 * i - 2]);
                assert(r[2 * i + 1] == spaceified(rest)[2 * i - 1]);
                assert(2 * i - 2 == 2 * (i - 1));
                assert(2 * i - 1 == 2 * (i - 1) + 1);
                assert(rest[i - 1] == s[i]);
            }
        }
    }
}

/// The characters at even positions of spaced text, in order: what remains
/// after removing every inserted space.
pub open spec fn every_other(s: Seq<char>) -> Seq<char> {
    Seq::new((s.len() / 2) as nat, |i: int| s[2 * i])
}

/// Removing every second character (the inserted spaces) from
/// `spaceified(s)` reconstructs `s`.
pub proof fn lemma_spaceified_round_trip(s: Seq<char>)
    ensures
        every_other(spaceified(s)) == s,
{
    lemma_spaceified_positions(s);
    assert((2 * s.len()) / 2 == s.len());
    assert(every_other(spaceified(s)) =~= s);
}

} // verus!
