use wordfun::wordnet::stemming::{exc_map, stem_by_rules, Exceptions, ExclusionsTable};
use wordfun::wordnet::{stem, StemmedWord, WordType};

fn exceptions() -> Exceptions {
    Exceptions::from_text(
        "epizoa epizoan epizoon\ngoyim goy\nmen man\n",
        "overflown overflow overfly\nslid slide\nwent go\n",
        "best good\nworse bad\n",
        "best well\n",
    )
}

fn noun(base_form: &str) -> StemmedWord {
    StemmedWord::new(base_form, WordType::Noun)
}

fn verb(base_form: &str) -> StemmedWord {
    StemmedWord::new(base_form, WordType::Verb)
}

fn adj(base_form: &str) -> StemmedWord {
    StemmedWord::new(base_form, WordType::Adj)
}

fn adv(base_form: &str) -> StemmedWord {
    StemmedWord::new(base_form, WordType::Adv)
}

#[test]
fn stem_noun_with_exception() {
    assert_eq!(vec![noun("goy")], stem("goyim", &exceptions()));
    // epizoon: any external parasitic organism (as fleas)
    assert_eq!(
        vec![noun("epizoan"), noun("epizoon")],
        stem("epizoa", &exceptions())
    );
}

#[test]
fn stem_verb_with_exception() {
    assert_eq!(vec![verb("go")], stem("went", &exceptions()));

    assert_eq!(
        vec![verb("overflow"), verb("overfly")],
        stem("overflown", &exceptions())
    );
}

#[test]
fn stem_adjective_with_exception() {
    assert_eq!(vec![adj("bad")], stem("worse", &exceptions()));
}

#[test]
fn stem_adverb_with_exception() {
    // "good" is the adjective exception, "well" is the adverb.
    assert_eq!(
        vec![adj("good"), adv("well")],
        stem("best", &exceptions())
    );
}

#[test]
fn test_slid() {
    // Looking up "slid" fails, and stemming returns "slide" as a base form; that it was stemmed
    // as a verb lets the dictionary look up "slide" as a verb.
    assert_eq!(vec![verb("slide")], stem("slid", &exceptions()));
}

#[test]
fn stem_with_rules() {
    assert_eq!(
        vec![
            noun("sandwiche"),
            noun("sandwich"),
            verb("sandwiche"),
            verb("sandwich")
        ],
        stem("sandwiches", &exceptions())
    );

    assert_eq!(vec![noun("kinsman")], stem("kinsmen", &exceptions()));
    assert_eq!(
        vec![verb("change"), verb("chang")],
        stem("changing", &exceptions())
    );
    assert_eq!(
        vec![adj("strang"), adj("strange")],
        stem("strangest", &exceptions())
    );
}

#[test]
fn exceptions_come_before_rules() {
    // "men" ends with a suffix of the rules; the table knows it, so the rules are not asked.
    assert_eq!(vec![noun("man")], stem("men", &exceptions()));
    assert_eq!(vec![noun("man")], stem("men", &Exceptions::new()));
    assert_eq!(vec![noun("goyim"), verb("goyim")], stem("goyims", &exceptions()));
}

#[test]
fn words_without_a_known_ending_have_no_stem() {
    assert_eq!(Vec::<StemmedWord>::new(), stem("hamlet", &Exceptions::new()));
    assert_eq!(Vec::<StemmedWord>::new(), stem("", &Exceptions::new()));
    assert_eq!(vec![noun(""), verb("")], stem("s", &Exceptions::new()));
}

#[test]
fn rules_in_their_order() {
    let word: Vec<char> = "flies".chars().collect();
    assert_eq!(
        stem_by_rules(&word),
        vec![
            noun("flie"),
            noun("fly"),
            verb("flie"),
            verb("fly"),
            verb("flie"),
            verb("fli"),
        ]
    );
    assert_eq!(
        stem("flies", &Exceptions::new()),
        vec![noun("flie"), noun("fly"), verb("flie"), verb("fly"), verb("fli")]
    );
    assert_eq!(
        stem("bigger", &Exceptions::new()),
        vec![adj("bigg"), adj("bigge")]
    );
}

#[test]
fn exception_list_lines() {
    let table = exc_map("a b c\r\nd e\na f\n\ng\nh  i");
    let get = |word: &str| table.get(word).cloned();
    assert_eq!(get("a"), Some(vec!["b".to_string(), "c".to_string(), "f".to_string()]));
    assert_eq!(get("d"), Some(vec!["e".to_string()]));
    assert_eq!(get("g"), Some(vec![]));
    assert_eq!(get(""), Some(vec![]));
    assert_eq!(get("h"), Some(vec!["".to_string(), "i".to_string()]));
    assert_eq!(get("b"), None);
    assert_eq!(table.len(), 5);
    assert_eq!(exc_map("").len(), 0);
    assert_eq!(ExclusionsTable::new().len(), 0);
    assert_eq!(exc_map("x y\n").get("x"), exc_map("x y").get("x"));
}

#[test]
fn base_forms_are_added_to_a_table() {
    let mut table = ExclusionsTable::new();
    table.add("mice", vec!["mouse".to_string()]);
    table.add("dice", vec!["die".to_string(), "dice".to_string()]);
    table.add("mice", vec!["mus".to_string()]);
    assert_eq!(table.len(), 2);
    assert_eq!(table.get("mice"), Some(&vec!["mouse".to_string(), "mus".to_string()]));
    assert_eq!(table.get("dice"), Some(&vec!["die".to_string(), "dice".to_string()]));
    assert_eq!(table.get("rice"), None);
}
