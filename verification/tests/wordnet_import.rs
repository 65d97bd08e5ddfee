use wordfun::wordnet::import::data::{char_is_space, read_line_at, trim};
use wordfun::wordnet::import::sense::{parse_u32, parse_u64, parse_word_type};
use wordfun::wordnet::stemming::Exceptions;
use wordfun::wordnet::{from_wordnet, lookup, Sense, SenseList, WordType, WordnetData};
use wordfun::Dictionary;

fn chars(text: &str) -> Vec<char> {
    text.chars().collect()
}

fn data() -> WordnetData {
    WordnetData {
        noun: "00001 03 n 01 dog 0 | a nice animal  \n00002 03 n 01 slide 0 | a small flat piece of glass\n".to_string(),
        verb: "00001 29 v 01 slide 0 |  move smoothly\r\n00002 29 v 01 dog 0 | go after\n00003 no definition here\n".to_string(),
        adj: "x | first line\ny | second line".to_string(),
        adv: String::new(),
    }
}

fn at(file: &str, start: &str) -> u64 {
    file.find(start).unwrap() as u64
}

fn sense(lemma: &str, word_type: WordType, offset: u64, sense_num: u32) -> Sense {
    Sense { lemma: lemma.to_string(), word_type, offset, sense_num }
}

#[test]
fn sense_line_is_read() {
    let sense = Sense::from_str("dog%1:05:00:: 02086723 1 42").unwrap();
    assert_eq!(sense.lemma, "dog");
    assert_eq!(sense.word_type, WordType::Noun);
    assert_eq!(sense.offset, 2086723);
    assert_eq!(sense.sense_num, 1);

    let sense = Sense::from_str("jack-o'-lantern%5:00:00:x:01 +7 4294967295").unwrap();
    assert_eq!(sense.lemma, "jack-o'-lantern");
    assert_eq!(sense.word_type, WordType::Adj);
    assert_eq!(sense.offset, 7);
    assert_eq!(sense.sense_num, u32::MAX);

    let sense = Sense::from_str("%4 18446744073709551615 0").unwrap();
    assert_eq!(sense.lemma, "");
    assert_eq!(sense.word_type, WordType::Adv);
    assert_eq!(sense.offset, u64::MAX);
}

#[test]
fn sense_line_errors() {
    let message = |line: &str| Sense::from_str(line).err().unwrap().message().to_string();
    assert_eq!(message(""), "Synset Offset not found");
    assert_eq!(message("dog%1:05:00::"), "Synset Offset not found");
    assert_eq!(message("dog%1:05:00:: x 1"), "Unparseable Synset Offset");
    assert_eq!(message("dog%1:05:00::  1"), "Unparseable Synset Offset");
    assert_eq!(message("dog%1:05:00:: 18446744073709551616 1"), "Unparseable Synset Offset");
    assert_eq!(message("dog%1:05:00:: 12"), "Sense Number not found");
    assert_eq!(message("dog%1:05:00:: 12 -1"), "Unparseable Sense Number");
    assert_eq!(message("dog%1:05:00:: 12 4294967296"), "Unparseable Sense Number");
    assert_eq!(message("dog 12 1"), "lemma % delimiter not found");
    assert_eq!(message("dog 12 1 %1"), "lemma % delimiter not found");
    assert_eq!(message("dog%6:05:00:: 12 1"), "Unknown word_type");
    assert_eq!(message("dog% 12 1"), "Unknown word_type");
    assert_eq!(message("dog%é 12 1"), "Unknown word_type");
    let error = Sense::from_str("dog 12 1").err().unwrap();
    assert_eq!(error.line(), "dog 12 1");
}

#[test]
fn numbers() {
    assert_eq!(parse_u64(&chars("0")), Some(0));
    assert_eq!(parse_u64(&chars("007")), Some(7));
    assert_eq!(parse_u64(&chars("+15")), Some(15));
    assert_eq!(parse_u64(&chars("18446744073709551615")), Some(u64::MAX));
    assert_eq!(parse_u64(&chars("18446744073709551616")), None);
    assert_eq!(parse_u64(&chars("99999999999999999999999")), None);
    assert_eq!(parse_u64(&chars("")), None);
    assert_eq!(parse_u64(&chars("+")), None);
    assert_eq!(parse_u64(&chars("-1")), None);
    assert_eq!(parse_u64(&chars("++1")), None);
    assert_eq!(parse_u64(&chars("1 ")), None);
    assert_eq!(parse_u64(&chars("12a")), None);
    assert_eq!(parse_u32(&chars("4294967295")), Some(u32::MAX));
    assert_eq!(parse_u32(&chars("4294967296")), None);
    assert_eq!(parse_u32(&chars("42")), Some(42));
    for text in ["0", "1", "+0", "000", "12345", "", "x", "4294967295", "4294967296", "٣"] {
        assert_eq!(parse_u32(&chars(text)), text.parse::<u32>().ok());
        assert_eq!(parse_u64(&chars(text)), text.parse::<u64>().ok());
    }
}

#[test]
fn word_types() {
    assert_eq!(parse_word_type('1'), Some(WordType::Noun));
    assert_eq!(parse_word_type('2'), Some(WordType::Verb));
    assert_eq!(parse_word_type('3'), Some(WordType::Adj));
    assert_eq!(parse_word_type('4'), Some(WordType::Adv));
    assert_eq!(parse_word_type('5'), Some(WordType::Adj));
    assert_eq!(parse_word_type('0'), None);
    assert_eq!(parse_word_type('6'), None);
    assert_eq!(parse_word_type('n'), None);
}

#[test]
fn lines_are_read_at_offsets() {
    let text = "first\nsecond\r\nthird";
    assert_eq!(read_line_at(text, 0), Some("first"));
    assert_eq!(read_line_at(text, 2), Some("rst"));
    assert_eq!(read_line_at(text, 5), Some(""));
    assert_eq!(read_line_at(text, 6), Some("second"));
    assert_eq!(read_line_at(text, 14), Some("third"));
    assert_eq!(read_line_at(text, 19), None);
    assert_eq!(read_line_at(text, 20), None);
    assert_eq!(read_line_at("a\r", 0), Some("a\r"));
    assert_eq!(read_line_at("", 0), None);
    assert_eq!(read_line_at("é\n", 1), None);
    assert_eq!(read_line_at("é\n", 2), Some(""));
    assert_eq!(read_line_at("é\n", 0), Some("é"));
    for offset in 0..=text.len() + 1 {
        let expected = text.get(offset..).and_then(|rest| rest.lines().next());
        assert_eq!(read_line_at(text, offset), expected);
    }
}

#[test]
fn trim_takes_white_space_off_both_ends() {
    let trimmed = |text: &str| trim(&chars(text)).iter().collect::<String>();
    for text in ["", " ", "a", " a ", "\t a b \r\n", "\u{a0}x\u{3000}", "a  ", "  a", "\u{200b}a\u{2003}", "\u{85}\u{1680}é\u{2028}\u{2029}\u{202f}\u{205f}"] {
        assert_eq!(trimmed(text), text.trim());
    }
    for code in 0..0x3100u32 {
        if let Some(c) = char::from_u32(code) {
            assert_eq!(char_is_space(c), c.is_whitespace());
        }
    }
}

#[test]
fn definitions_are_looked_up() {
    let data = data();
    assert_eq!(lookup(&sense("dog", WordType::Noun, 0, 1), &data), Some("a nice animal".to_string()));
    assert_eq!(
        lookup(&sense("slide", WordType::Noun, at(&data.noun, "00002"), 1), &data),
        Some("a small flat piece of glass".to_string())
    );
    assert_eq!(lookup(&sense("slide", WordType::Verb, 0, 1), &data), Some("move smoothly".to_string()));
    assert_eq!(
        lookup(&sense("dog", WordType::Verb, at(&data.verb, "00002"), 1), &data),
        Some("go after".to_string())
    );
    assert_eq!(lookup(&sense("x", WordType::Verb, at(&data.verb, "00003"), 1), &data), None);
    assert_eq!(
        lookup(&sense("x", WordType::Adj, at(&data.adj, "y |"), 1), &data),
        Some("second line".to_string())
    );
    assert_eq!(lookup(&sense("x", WordType::Adj, 1, 1), &data), Some("first line".to_string()));
    assert_eq!(lookup(&sense("x", WordType::Adj, 2, 1), &data), Some("first line".to_string()));
    assert_eq!(lookup(&sense("x", WordType::Adj, 3, 1), &data), None);
    assert_eq!(lookup(&sense("x", WordType::Adv, 0, 1), &data), None);
    assert_eq!(lookup(&sense("x", WordType::Noun, 1000, 1), &data), None);
    assert_eq!(lookup(&sense("x", WordType::Noun, u64::MAX, 1), &data), None);
}

#[test]
fn sense_list_finds_the_lowest_number() {
    let list = SenseList::from_iter(vec![
        sense("dog", WordType::Noun, 30, 3),
        sense("dog", WordType::Verb, 10, 2),
        sense("dog", WordType::Noun, 20, 1),
        sense("dog", WordType::Noun, 40, 1),
        sense("dog", WordType::Verb, 50, 5),
    ]);
    assert_eq!(list.find(WordType::Noun).unwrap().offset, 20);
    assert_eq!(list.find(WordType::Verb).unwrap().offset, 10);
    assert!(list.find(WordType::Adj).is_none());
    assert!(SenseList::from_iter(Vec::new()).find(WordType::Noun).is_none());
}

#[test]
fn dictionary_from_wordnet() {
    let noun_slide = at(&data().noun, "00002");
    let verb_dog = at(&data().verb, "00002");
    let index = format!(
        "dog%1:05:00:: 0 1 42\ndog%2:38:00:: {verb_dog} 1 2\nslide%2:38:00:: 0 2 5\nslide%1:06:00:: {noun_slide} 1 7\nslide%2:38:01:: {verb_dog} 1 0\nempty%4:02:00:: 0 1 0\nthis line cannot be read\nlater%1:05:00:: 0 1 1\n"
    );
    let index = index.as_str();
    let entries = from_wordnet(index, &data());
    assert_eq!(entries.len(), 3);
    let dog = entries.get("dog").unwrap();
    assert_eq!(dog.len(), 2);
    assert_eq!(dog[0].word_type, WordType::Noun);
    assert_eq!(dog[0].text, "a nice animal");
    assert_eq!(dog[1].word_type, WordType::Verb);
    assert_eq!(dog[1].text, "go after");
    let slide = entries.get("slide").unwrap();
    assert_eq!(slide[0].text, "a small flat piece of glass");
    assert_eq!(slide[1].text, "go after");
    assert!(entries.get("empty").unwrap().is_empty());
    assert!(entries.get("later").is_none());

    let dict = Dictionary::from_wordnet(
        index,
        &data(),
        Exceptions::from_text("", "slid slide\n", "", ""),
    );
    assert_eq!(dict.len(), 3);
    assert_eq!(dict.lookup("Dog"), Some("a nice animal"));
    assert_eq!(dict.lookup("dogs"), Some("a nice animal"));
    assert_eq!(dict.lookup("dogged"), None);
    assert_eq!(dict.lookup("dogging"), None);
    assert_eq!(dict.lookup("slid"), Some("go after"));
    assert_eq!(dict.lookup("empty"), None);
    assert_eq!(dict.lookup("later"), None);
}

#[test]
fn a_later_run_replaces_the_entry_of_its_lemma() {
    let noun_slide = at(&data().noun, "00002");
    let verb_dog = at(&data().verb, "00002");
    let index = format!(
        "dog%1:05:00:: 0 1 42\nslide%1:06:00:: {noun_slide} 1 7\ndog%2:38:00:: {verb_dog} 1 2\n"
    );
    let index = index.as_str();
    let entries = from_wordnet(index, &data());
    assert_eq!(entries.len(), 2);
    let dog = entries.get("dog").unwrap();
    assert_eq!(dog.len(), 1);
    assert_eq!(dog[0].word_type, WordType::Verb);
    assert_eq!(dog[0].text, "go after");
    assert!(entries.contains_key("slide"));
    assert!(from_wordnet("", &data()).is_empty());
    assert!(from_wordnet("nothing to read\ndog%1:05:00:: 0 1 42\n", &data()).is_empty());
}
