//! Decisions of the command-line front end.
//!
//! The front end only ever decides three things: whether the invocation asks
//! for standard input, what single text the positional words form, and which
//! transform to run. All three are plain functions from values to values and
//! are verified here; reading arguments and streams stays outside.

use vstd::prelude::*;
use vstd::string::StringExecFns;

use crate::text::read_chars;
use crate::transform::{alternate, alternated, randomize, randomized_with};

verus! {

/// The words joined into one text, with a single space between neighbours.
pub open spec fn joined(ws: Seq<Seq<char>>) -> Seq<char>
    decreases ws.len(),
{
    if ws.len() == 0 {
        Seq::empty()
    } else if ws.len() == 1 {
        ws[0]
    } else {
        ws[0] + seq![' '] + joined(ws.drop_first())
    }
}

proof fn lemma_joined_push(ws: Seq<Seq<char>>, w: Seq<char>)
    ensures
        joined(ws.push(w)) == if ws.len() == 0 {
            w
        } else {
            joined(ws) + seq![' '] + w
        },
    decreases ws.len(),
{
    if ws.len() == 0 {
        assert(ws.push(w)[0] == w);
    } else {
        assert(ws.push(w)[0] == ws[0]);
        assert(ws.push(w).drop_first() =~= ws.drop_first().push(w));
        lemma_joined_push(ws.drop_first(), w);
        if ws.len() == 1 {
            assert(joined(ws.drop_first().push(w)) == w);
            assert(joined(ws.push(w)) == ws[0] + seq![' '] + w);
        } else {
            assert(ws[0] + seq![' '] + (joined(ws.drop_first()) + seq![' '] + w) =~= (ws[0]
                + seq![' '] + joined(ws.drop_first())) + seq![' '] + w);
        }
    }
}

/// The positional words joined with single spaces into one text value.
pub fn join_words(words: &Vec<String>) -> (r: String)
    ensures
        r@ == joined(words.deep_view()),
{
    let ghost ws = words.deep_view();
    let mut r = String::new();
    let mut i: usize = 0;
    proof {
        assert(ws.take(0) =~= Seq::<Seq<char>>::empty());
        assert(ws.len() == words@.len());
        assert(forall|k: int| 0 <= k < ws.len() ==> ws[k] == #[trigger] words@[k]@);
    }
    while i < words.len()
        invariant
            i <= ws.len(),
            ws == words.deep_view(),
            ws.len() == words@.len(),
            forall|k: int| 0 <= k < ws.len() ==> ws[k] == #[trigger] words@[k]@,
            r@ == joined(ws.take(i as int)),
        decreases ws.len() - i,
    {
        if i > 0 {
            proof {
                reveal_strlit(" ");
                assert(" "@ =~= seq![' ']);
            }
            r.append(" ");
        }
        r.append(words[i].as_str());
        proof {
            lemma_joined_push(ws.take(i as int), ws[i as int]);
            assert(ws.take(i as int).push(ws[i as int]) =~= ws.take(i as int + 1));
        }
        i += 1;
    }
    proof {
        assert(ws.take(ws.len() as int) =~= ws);
    }
    r
}

/// Whether the command line asks for standard input: no words at all, or
/// exactly one word that is the single token "-".
pub open spec fn stdin_requested(ws: Seq<Seq<char>>) -> bool {
    ws.len() == 0 || (ws.len() == 1 && ws[0] == seq!['-'])
}

/// Whether the given positional words ask for standard input.
pub fn wants_stdin(words: &Vec<String>) -> (r: bool)
    ensures
        r == stdin_requested(words.deep_view()),
{
    let ghost ws = words.deep_view();
    if words.len() == 0 {
        return true;
    }
    if words.len() == 1 {
        let cs = read_chars(words[0].as_str());
        proof {
            assert(cs@ == ws[0]);
            assert(seq!['-'].len() == 1);
            assert(seq!['-'][0] == '-');
        }
        if cs.len() == 1 && cs[0] == '-' {
            proof {
                assert(ws[0] =~= seq!['-']);
            }
            return true;
        }
        return false;
    }
    false
}

/// Applies the selected transform to the assembled text: the alternating
/// transform when `alternate_mode` is set, the randomizing transform
/// otherwise.
pub fn transform_text(text: &str, alternate_mode: bool) -> (r: String)
    ensures
        alternate_mode ==> r@ == alternated(text@),
        !alternate_mode ==> exists|coins: Seq<bool>|
            #![auto]
            coins.len() == text@.len() && r@ == randomized_with(text@, coins),
{
    if alternate_mode {
        alternate(text)
    } else {
        randomize(text)
    }
}

} // verus!
