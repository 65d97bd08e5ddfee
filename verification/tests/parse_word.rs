use wordfun::lexicon::parse_word::{gen_char_types, normalize};
use wordfun::lexicon::{char_type, CharType};
use wordfun::{parse_word, AsciiString, WordBreaks};

fn ascii_string(string: &str) -> AsciiString {
    AsciiString::try_from(string).expect("String was not ASCII")
}

#[test]
fn parse_simple_word() {
    assert_eq!(
        parse_word("simple"),
        (ascii_string("simple"), WordBreaks::default())
    );
}

#[test]
fn parse_capitalized_word() {
    assert_eq!(
        parse_word("Kapital"),
        (ascii_string("kapital"), WordBreaks::default())
    );
}

#[test]
fn parse_accented_word() {
    assert_eq!(
        parse_word("abbé"),
        (ascii_string("abbe"), WordBreaks::default())
    );
}

#[test]
fn parse_phrase() {
    assert_eq!(
        parse_word("Das Kapital"),
        (ascii_string("daskapital"), WordBreaks::from_positions(&[3]))
    );
}

#[test]
fn parse_punctuated_phrase() {
    assert_eq!(
        parse_word("tête-à-tête"),
        (
            ascii_string("teteatete"),
            WordBreaks::from_positions(&[4, 5])
        )
    );
}

#[test]
fn parse_apostrophe() {
    assert_eq!(
        parse_word("bee's knees"),
        (ascii_string("beesknees"), WordBreaks::from_positions(&[4]))
    );
}

#[test]
fn test_parse_three() {
    assert_eq!(parse_word("THREE").0.to_str(), "three");
}

#[test]
fn parse_word_parse_simple_word() {
    assert_eq!(
        parse_word("simple"),
        (ascii_string("simple"), WordBreaks::from_positions(&[]))
    );
}

#[test]
fn parse_word_parse_capitalized_word() {
    assert_eq!(
        parse_word("Kapital"),
        (ascii_string("kapital"), WordBreaks::from_positions(&[]))
    );
}

#[test]
fn parse_word_parse_accented_word() {
    assert_eq!(
        parse_word("abbé"),
        (ascii_string("abbe"), WordBreaks::from_positions(&[]))
    );
}

#[test]
fn parse_word_parse_phrase() {
    assert_eq!(
        parse_word("Das Kapital"),
        (ascii_string("daskapital"), WordBreaks::from_positions(&[3]))
    );
}

#[test]
fn parse_word_parse_punctuated_phrase() {
    assert_eq!(
        parse_word("tête-à-tête"),
        (
            ascii_string("teteatete"),
            WordBreaks::from_positions(&[4, 5])
        )
    );
}

#[test]
fn parse_word_doc_examples() {
    let (word, breaks) = parse_word("inhibition");
    assert_eq!(word.to_str(), "inhibition");
    assert!(breaks.is_empty());

    let (word, breaks) = parse_word("Bee's knees");
    assert_eq!(word.to_str(), "beesknees");
    assert_eq!(breaks.positions(), &[4]);
}

#[test]
fn separators_at_the_ends_give_no_break() {
    let (word, breaks) = parse_word("  Hello, world!  ");
    assert_eq!(word.to_str(), "helloworld");
    assert_eq!(breaks.to_vec(), vec![5]);

    let (word, breaks) = parse_word("(aside)");
    assert_eq!(word.to_str(), "aside");
    assert!(breaks.is_empty());

    let (word, breaks) = parse_word("?!");
    assert_eq!(word.to_str(), "");
    assert!(breaks.is_empty());
}

#[test]
fn a_run_of_separators_is_one_break() {
    let (word, breaks) = parse_word("wait... what?!");
    assert_eq!(word.to_str(), "waitwhat");
    assert_eq!(breaks.to_vec(), vec![4]);
}

#[test]
fn digits_and_control_bytes_are_dropped() {
    let (word, breaks) = parse_word("a1b\tc\nd2");
    assert_eq!(word.to_str(), "abcd");
    assert!(breaks.is_empty());
}

#[test]
fn empty_text_has_no_letters() {
    let (word, breaks) = parse_word("");
    assert!(word.is_empty());
    assert_eq!(word.len(), 0);
    assert!(breaks.is_empty());
}

#[test]
fn normalize_takes_ascii_apart() {
    let (word, breaks) = normalize(b"Ile-de-France");
    assert_eq!(word.to_str(), "iledefrance");
    assert_eq!(breaks.to_vec(), vec![3, 5]);

    let (word, breaks) = normalize(b"-x-");
    assert_eq!(word.to_str(), "x");
    assert!(breaks.is_empty());

    let (word, breaks) = normalize(&[0xff, b'a', 0x80, b' ', 0x7f, b'B']);
    assert_eq!(word.to_str(), "ab");
    assert_eq!(breaks.to_vec(), vec![1]);
}

#[test]
fn letters_are_stable_under_normalizing_again() {
    for text in ["tête-à-tête", "Bee's knees", "Île-de-France", "THREE", "a1 b2", "北亰", ""] {
        let (letters, _) = parse_word(text);
        let (again, breaks) = parse_word(letters.to_str());
        assert_eq!(letters, again);
        assert!(breaks.is_empty());
    }
}

#[test]
fn char_types() {
    assert_eq!(char_type(b'a'), CharType::Letter);
    assert_eq!(char_type(b'Z'), CharType::Letter);
    assert_eq!(char_type(b'\''), CharType::Apostrophe);
    assert_eq!(char_type(b'0'), CharType::Digit);
    assert_eq!(char_type(b'9'), CharType::Digit);
    assert_eq!(char_type(b' '), CharType::WhiteSpace);
    assert_eq!(char_type(b'-'), CharType::Punctuation);
    assert_eq!(char_type(b'!'), CharType::Punctuation);
    assert_eq!(char_type(b'~'), CharType::Punctuation);
    assert_eq!(char_type(b'\t'), CharType::Unprintable);
    assert_eq!(char_type(0), CharType::Unprintable);
    assert_eq!(char_type(31), CharType::Unprintable);
    assert_eq!(char_type(127), CharType::Unprintable);
    assert_eq!(char_type(200), CharType::Unprintable);
}

#[test]
fn table_agrees_with_char_type() {
    let table = gen_char_types();
    for b in 0..=255u8 {
        assert_eq!(table[b as usize], char_type(b));
    }
}
