use spongebob::alternate;
use spongebob::transform_text;
use spongebob::Utf8Assembler;

const LONG_TEXT: &str = r"
    Lorem ipsum dolor sit amet, consectetur adipiscing elit, sed do
    eiusmod tempor incididunt ut labore et dolore magna aliqua. Ut
    enim ad minim veniam, quis nostrud exercitation ullamco laboris
    nisi ut aliquip ex ea commodo consequat. Duis aute irure dolor
    in reprehenderit in voluptate velit esse cillum dolore eu fugiat
    nulla pariatur. Excepteur sint occaecat cupidatat non proident,
    sunt in culpa qui officia deserunt mollit anim id est laborum.
    ";

const LONG_TEXT_ALTERNATED: &str = r"
    LoReM iPsUm DoLoR sIt AmEt, CoNsEcTeTuR aDiPiScInG eLiT, sEd Do
    EiUsMoD tEmPoR iNcIdIdUnT uT lAbOrE eT dOlOrE mAgNa AlIqUa. Ut
    EnIm Ad MiNiM vEnIaM, qUiS nOsTrUd ExErCiTaTiOn UlLamCo LaBoRiS
    nIsI uT aLiQuIp Ex Ea CoMmOdO cOnSeQuAt. DuIs AutE iRuRe DoLoR
    iN rEpReHeNdErIt In VoLuPtAtE vElIt EsSe CiLluM dOlOrE eU fUgIaT
    nUlLa PaRiAtUr. ExCePtEuR sInT oCcAeCaT cUpIdAtAt NoN pRoIdEnT,
    sUnT iN cUlPa QuI oFfIcIa DeSeRuNt MoLlIt AnIm Id EsT lAbOrUm.
    ";

/// Feeds `bytes` in chunks of `size` and returns the pieces of decoded text.
fn feed_in_chunks(bytes: &[u8], size: usize) -> Vec<String> {
    let mut assembler = Utf8Assembler::new();
    let mut pieces = Vec::new();
    for chunk in bytes.chunks(size) {
        match assembler.feed(chunk) {
            Some(text) => pieces.push(text),
            None => panic!("valid text was refused"),
        }
    }
    assert!(assembler.is_complete());
    pieces
}

#[test]
fn whole_ascii_chunk() {
    let mut assembler = Utf8Assembler::new();
    assert_eq!(assembler.feed(b"This is a test"), Some("This is a test".to_string()));
    assert!(assembler.is_complete());
}

#[test]
fn empty_chunk() {
    let mut assembler = Utf8Assembler::new();
    assert_eq!(assembler.feed(b""), Some(String::new()));
    assert!(assembler.is_complete());
}

#[test]
fn split_two_byte_character() {
    // "héllo": the encoding of 'é' is two bytes; cut between them
    let bytes = "héllo".as_bytes();
    let mut assembler = Utf8Assembler::new();
    let first = assembler.feed(&bytes[0..2]).unwrap();
    assert_eq!(first, "h");
    assert!(!assembler.is_complete());
    let second = assembler.feed(&bytes[2..]).unwrap();
    assert_eq!(second, "éllo");
    assert!(assembler.is_complete());
}

#[test]
fn fragments_agree_with_single_fragment() {
    // every cut width gives the same text as one whole feed
    let text = "naïve — füßgänger 日本語 𝄞 end";
    let bytes = text.as_bytes();
    let whole = feed_in_chunks(bytes, bytes.len()).concat();
    assert_eq!(whole, text);
    for size in 1..8 {
        let pieces = feed_in_chunks(bytes, size);
        assert_eq!(pieces.concat(), text);
    }
}

#[test]
fn invalid_bytes_are_refused() {
    let mut assembler = Utf8Assembler::new();
    assert_eq!(assembler.feed(&[0xff]), None);
    // a lone continuation byte cannot start a character
    assert_eq!(assembler.feed(&[0x80]), None);
    // refusal holds the state unchanged: valid text still goes through
    assert_eq!(assembler.feed(b"ok"), Some("ok".to_string()));
}

#[test]
fn truncated_character_is_held_back() {
    // the first byte of a four-byte encoding, alone
    let bytes = "𝄞".as_bytes();
    let mut assembler = Utf8Assembler::new();
    assert_eq!(assembler.feed(&bytes[0..1]), Some(String::new()));
    assert!(!assembler.is_complete());
    assert_eq!(assembler.feed(&bytes[1..3]), Some(String::new()));
    assert!(!assembler.is_complete());
    assert_eq!(assembler.feed(&bytes[3..4]), Some("𝄞".to_string()));
    assert!(assembler.is_complete());
}

#[test]
fn long_stdin_in_reader_chunks() {
    // a reader pulling 64 bytes at a time and transforming piece by piece,
    // as the command-line front end does
    let mut output = String::new();
    let mut assembler = Utf8Assembler::new();
    for chunk in LONG_TEXT.as_bytes().chunks(64) {
        let text = assembler.feed(chunk).unwrap();
        output += &transform_text(&text, true);
    }
    assert!(assembler.is_complete());
    assert_eq!(output, LONG_TEXT_ALTERNATED);
}

#[test]
fn short_stdin_single_chunk() {
    let mut assembler = Utf8Assembler::new();
    let text = assembler.feed(b"This is a test").unwrap();
    assert_eq!(alternate(&text), "ThIs Is A tEsT");
}
