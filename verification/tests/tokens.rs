use palimpsest::text::{
    chars_of, decimal_digits, is_white_space, parse_number, push_chars, spells, split_words,
};
use palimpsest::tokenizer::{CharTokenizer, Tokenizer};
use palimpsest::vocab;
use palimpsest::vocab::KvVocab;

#[test]
fn char_roundtrip() {
    let tok = CharTokenizer::new("abc");
    let ids = tok.encode("abcba");
    assert_eq!(ids.len(), 5);
    assert_eq!(tok.decode(&ids), "abcba");
    assert_eq!(tok.vocab_size(), 7);
}

#[test]
fn roundtrip() {
    let vocab = KvVocab::new(8, 8);
    let text = "BOS K3 V1 K0 V7 SEP K3 QUERY V1 EOS";
    let ids = vocab.encode(text);
    assert_eq!(vocab.decode(&ids), text);
    assert_eq!(vocab.vocab_size(), 22);
}

#[test]
fn char_ids_follow_the_alphabet() {
    let tok = CharTokenizer::new("xyz");
    assert_eq!(tok.encode("zyx"), vec![6, 5, 4]);
    assert_eq!(tok.pad_id(), 0);
    assert_eq!(tok.bos_id(), Some(1));
    assert_eq!(tok.eos_id(), Some(2));
    assert_eq!(tok.mask_id(), Some(3));
}

#[test]
fn unknown_characters_are_dropped() {
    let tok = CharTokenizer::new("abc");
    assert_eq!(tok.encode("a?b\u{e9}c"), vec![4, 5, 6]);
}

#[test]
fn special_and_foreign_ids_decode_to_nothing() {
    let tok = CharTokenizer::new("abc");
    assert_eq!(tok.decode(&[1, 4, 3, 6, 7, 4_000_000_000, 2]), "ac");
}

#[test]
fn repeated_alphabet_characters_take_their_last_id() {
    let tok = CharTokenizer::new("aba");
    assert_eq!(tok.encode("ab"), vec![6, 5]);
    assert_eq!(tok.decode(&[4, 5, 6]), "aba");
    assert_eq!(tok.vocab_size(), 7);
}

#[test]
fn wide_characters_encode() {
    let tok = CharTokenizer::new("\u{e9}\u{1f600}");
    let ids = tok.encode("\u{1f600}\u{e9}\u{1f600}");
    assert_eq!(ids, vec![5, 4, 5]);
    assert_eq!(tok.decode(&ids), "\u{1f600}\u{e9}\u{1f600}");
}

#[test]
fn char_ids_decode_and_encode_back() {
    let tok = CharTokenizer::new("abc");
    let ids = vec![6, 4, 5, 5];
    assert_eq!(tok.encode(&tok.decode(&ids)), ids);
}

#[test]
fn token_kinds() {
    let vocab = KvVocab::new(3, 2);
    assert_eq!(vocab.key_id(0), 6);
    assert_eq!(vocab.key_id(2), 8);
    assert_eq!(vocab.value_id(0), 9);
    assert_eq!(vocab.value_id(1), 10);
    for id in 0..13u32 {
        let kinds = [id < vocab::NUM_SPECIAL, vocab.is_key(id), vocab.is_value(id)];
        let met = kinds.iter().filter(|&&k| k).count();
        assert_eq!(met, usize::from(id < 11), "{id}");
    }
    assert_eq!(vocab.pad_id(), vocab::PAD);
    assert_eq!(vocab.bos_id(), Some(vocab::BOS));
    assert_eq!(vocab.eos_id(), Some(vocab::EOS));
    assert_eq!(vocab.mask_id(), Some(vocab::MASK));
}

#[test]
fn token_names() {
    let vocab = KvVocab::new(12, 2);
    let names: Vec<String> = (0..6u32).map(|id| vocab.token_name(id)).collect();
    assert_eq!(names, vec!["PAD", "BOS", "EOS", "SEP", "QUERY", "MASK"]);
    assert_eq!(vocab.token_name(6), "K0");
    assert_eq!(vocab.token_name(17), "K11");
    assert_eq!(vocab.token_name(18), "V0");
    assert_eq!(vocab.token_name(19), "V1");
    assert_eq!(vocab.token_name(20), "<invalid:20>");
    assert_eq!(vocab.token_name(4_294_967_295), "<invalid:4294967295>");
}

#[test]
fn names_look_up() {
    let vocab = KvVocab::new(12, 2);
    for id in 0..20u32 {
        assert_eq!(vocab.id_of_name(&vocab.token_name(id)), Some(id));
    }
    assert_eq!(vocab.id_of_name("K12"), None);
    assert_eq!(vocab.id_of_name("V2"), None);
    assert_eq!(vocab.id_of_name("X1"), None);
    assert_eq!(vocab.id_of_name("K"), None);
    assert_eq!(vocab.id_of_name("K1x"), None);
    assert_eq!(vocab.id_of_name("K-1"), None);
    assert_eq!(vocab.id_of_name("K99999999999999999999999"), None);
    assert_eq!(vocab.id_of_name("K+1"), Some(7));
    assert_eq!(vocab.id_of_name("K007"), Some(13));
    assert_eq!(vocab.id_of_name("bos"), None);
}

#[test]
fn unknown_names_are_skipped() {
    let vocab = KvVocab::new(8, 8);
    assert_eq!(vocab.encode("  BOS\tnope K1\n K9 EOS "), vec![1, 7, 2]);
    assert_eq!(vocab.encode(""), Vec::<u32>::new());
}

#[test]
fn tokens_decode_and_encode_back() {
    let vocab = KvVocab::new(3, 3);
    let ids: Vec<u32> = (0..12).rev().collect();
    assert_eq!(vocab.encode(&vocab.decode(&ids)), ids);
    assert_eq!(vocab.decode(&[]), "");
    assert_eq!(vocab.decode(&[1, 99]), "BOS <invalid:99>");
}

#[test]
fn foreign_tokens_are_dropped_on_the_way_back() {
    let vocab = KvVocab::new(3, 3);
    assert_eq!(vocab.id_of_name("<invalid:12>"), None);
    assert_eq!(vocab.encode(&vocab.decode(&[1, 12, 7, 4_000_000_000, 2])), vec![1, 7, 2]);
}

#[test]
fn white_space_is_that_of_unicode() {
    for code in 0..=0x10_ffffu32 {
        if let Some(c) = char::from_u32(code) {
            assert_eq!(is_white_space(c), c.is_whitespace(), "{code:#x}");
        }
    }
}

#[test]
fn words_split_at_white_space() {
    for text in ["", "  ", "a", " a  bc\td\n", "\u{3000}x\u{85}y", "one two  three"] {
        let letters = chars_of(text);
        let words: Vec<String> =
            split_words(&letters).into_iter().map(|w| w.into_iter().collect()).collect();
        let expected: Vec<String> = text.split_whitespace().map(String::from).collect();
        assert_eq!(words, expected);
    }
}

#[test]
fn numbers_parse() {
    for text in [
        "", "+", "-", "0", "00", "7", "+7", "-7", "++7", "1 ", "12a", "18446744073709551615",
        "18446744073709551616", "99999999999999999999999999", "\u{663}",
    ] {
        assert_eq!(parse_number(&chars_of(text)), text.parse::<usize>().ok(), "{text:?}");
    }
}

#[test]
fn numbers_are_written_in_decimal() {
    for n in [0u32, 7, 10, 42, 100, 65_536, u32::MAX] {
        let digits: String = decimal_digits(n).into_iter().collect();
        assert_eq!(digits, n.to_string());
        assert_eq!(parse_number(&chars_of(&digits)), Some(n as usize));
    }
}

#[test]
fn characters_are_appended() {
    let mut text = String::from("a");
    push_chars(&mut text, &['b', '\u{e9}']);
    assert_eq!(text, "ab\u{e9}");
    assert!(spells(&['a', 'b', '\u{e9}'], &text));
    assert!(!spells(&['a', 'b'], &text));
    assert!(!spells(&['a', 'c', '\u{e9}'], &text));
}
