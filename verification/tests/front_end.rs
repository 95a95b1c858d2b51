use spongebob::alternate;
use spongebob::join_words;
use spongebob::spaceify;
use spongebob::transform_text;
use spongebob::wants_stdin;

#[test]
fn join_words_single_space() {
    let words = vec!["Hello,".to_string(), "world!".to_string()];
    assert_eq!(join_words(&words), "Hello, world!");
}

#[test]
fn join_words_empty_and_one() {
    assert_eq!(join_words(&Vec::new()), "");
    assert_eq!(join_words(&vec!["hello".to_string()]), "hello");
    // inner spaces of a single word are preserved, as a quoted argument is
    assert_eq!(join_words(&vec!["Hello,    world!".to_string()]), "Hello,    world!");
}

#[test]
fn joined_words_transform_like_one_string() {
    let words = vec!["Hello,".to_string(), "world!".to_string()];
    let joined = join_words(&words);
    assert_eq!(alternate(&joined), alternate("Hello, world!"));
    assert_eq!(alternate(&joined), "HeLlO, wOrLd!");
    assert_eq!(spaceify(&joined), "H e l l o ,   w o r l d ! ");
}

#[test]
fn stdin_on_no_words() {
    assert!(wants_stdin(&Vec::new()));
}

#[test]
fn stdin_on_single_dash() {
    assert!(wants_stdin(&vec!["-".to_string()]));
}

#[test]
fn no_stdin_on_words() {
    assert!(!wants_stdin(&vec!["hello".to_string()]));
    assert!(!wants_stdin(&vec!["-".to_string(), "x".to_string()]));
    assert!(!wants_stdin(&vec!["--".to_string()]));
}

#[test]
fn transform_text_selects_mode() {
    assert_eq!(transform_text("hello", true), "hElLo");
    assert_eq!(transform_text("This is a test", true), "ThIs Is A tEsT");
    assert_eq!(transform_text("hello", false).to_lowercase(), "hello");
}
