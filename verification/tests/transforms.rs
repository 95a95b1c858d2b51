use spongebob::alternate;
use spongebob::randomize;
use spongebob::spaceify;

#[test]
fn lib_empty() {
    assert_eq!(alternate(""), "");
    assert_eq!(randomize(""), "");
    assert_eq!(spaceify(""), "");
}

#[test]
fn alternate_no_alphabetic() {
    assert_eq!(alternate("123"), "123");
    assert_eq!(alternate(" "), " ");
    assert_eq!(alternate("\t"), "\t");
    assert_eq!(alternate(" \t \r\n"), " \t \r\n");
}

#[test]
fn lib_single_word() {
    assert_eq!(alternate("a"), "a");
    assert_eq!(alternate("A"), "A");
    assert_eq!(alternate("aa"), "aA");
    assert_eq!(alternate("Aa"), "Aa");
    assert_eq!(alternate("AA"), "Aa");
    assert_eq!(alternate("aaa"), "aAa");
    assert_eq!(alternate("Aaa"), "AaA");
    assert_eq!(alternate("AAA"), "AaA");

    assert_eq!(randomize("a").to_lowercase(), "a");
    assert_eq!(randomize("A").to_lowercase(), "a");
    assert_eq!(randomize("aa").to_lowercase(), "aa");
    assert_eq!(randomize("Aa").to_lowercase(), "aa");
    assert_eq!(randomize("AA").to_lowercase(), "aa");
    assert_eq!(randomize("aaa").to_lowercase(), "aaa");
    assert_eq!(randomize("Aaa").to_lowercase(), "aaa");
    assert_eq!(randomize("AAA").to_lowercase(), "aaa");

    assert_eq!(spaceify("a"), "a ");
    assert_eq!(spaceify("aa"), "a a ");
    assert_eq!(spaceify("aaa"), "a a a ");
}

#[test]
fn lib_multiple_words() {
    assert_eq!(alternate("a a"), "a A");
    assert_eq!(alternate("A a"), "A a");
    assert_eq!(alternate("A A"), "A a");
    assert_eq!(alternate("a a a"), "a A a");
    assert_eq!(alternate("A a a"), "A a A");
    assert_eq!(alternate("A A A"), "A a A");
    assert_eq!(alternate("a aa aaa aaaa"), "a Aa AaA aAaA");
    assert_eq!(alternate("A aa aaa aaaa"), "A aA aAa AaAa");

    assert_eq!(randomize("a a").to_lowercase(), "a a");
    assert_eq!(randomize("A a").to_lowercase(), "a a");
    assert_eq!(randomize("A A").to_lowercase(), "a a");
    assert_eq!(randomize("a a a").to_lowercase(), "a a a");
    assert_eq!(randomize("A a a").to_lowercase(), "a a a");
    assert_eq!(randomize("A A A").to_lowercase(), "a a a");
    assert_eq!(randomize("a aa aaa aaaa").to_lowercase(), "a aa aaa aaaa");
    assert_eq!(randomize("A aa aaa aaaa").to_lowercase(), "a aa aaa aaaa");

    assert_eq!(spaceify("a a"), "a   a ");
    assert_eq!(spaceify("a aa"), "a   a a ");
    assert_eq!(spaceify("a aaa"), "a   a a a ");
    assert_eq!(spaceify("a a a"), "a   a   a ");
    assert_eq!(spaceify("a aa a"), "a   a a   a ");
    assert_eq!(spaceify("a aa aa"), "a   a a   a a ");
}

#[test]
fn randomize_no_alphabetic() {
    assert_eq!(randomize("123"), "123");
    assert_eq!(randomize(" "), " ");
    assert_eq!(randomize("\t"), "\t");
    assert_eq!(randomize(" \t \r\n"), " \t \r\n");
}

#[test]
fn non_alphabetic() {
    assert_eq!(spaceify("123"), "1 2 3 ");
    assert_eq!(spaceify(" "), "  ");
    assert_eq!(spaceify("\t"), "\t ");
    assert_eq!(spaceify(" \t \r\n"), "  \t   \r \n ");
}

#[test]
fn alternate_starts_from_first_letter() {
    assert_eq!(alternate("Hello, world!"), "HeLlO, wOrLd!");
    assert_eq!(alternate("hello"), "hElLo");
}

#[test]
fn alternate_twice_same_output() {
    let texts = ["", "hello", "Hello, world!", "a aa aaa aaaa", " \t \r\n"];
    for t in texts {
        assert_eq!(alternate(t), alternate(t));
    }
}

#[test]
fn alternate_carries_state_across_words() {
    // alternation state crosses word boundaries and punctuation
    assert_eq!(alternate("ab cd"), "aB cD");
    assert_eq!(alternate("a,b"), "a,B");
}

#[test]
fn alternate_beyond_ascii() {
    // real Unicode case mappings, not ASCII arithmetic
    assert_eq!(alternate("ñä"), "ñÄ");
    assert_eq!(alternate("ÉÉ"), "Éé");
}

#[test]
fn randomize_same_length_ascii() {
    let texts = ["hello", "Hello, world!", "a aa aaa aaaa"];
    for t in texts {
        assert_eq!(randomize(t).chars().count(), t.chars().count());
    }
}

#[test]
fn spaceify_doubles_and_reconstructs() {
    let texts = ["hello", "Hello, world!", " \t \r\n", "日本"];
    for t in texts {
        let spaced = spaceify(t);
        assert_eq!(spaced.chars().count(), 2 * t.chars().count());
        let rebuilt: String = spaced.chars().step_by(2).collect();
        assert_eq!(rebuilt, t);
        let inserted: Vec<char> = spaced.chars().skip(1).step_by(2).collect();
        assert!(inserted.iter().all(|c| *c == ' '));
    }
}
