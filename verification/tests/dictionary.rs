use wordfun::wordnet::stemming::Exceptions;
use wordfun::wordnet::WordType;
use wordfun::Dictionary;

#[test]
fn lookup_simple() {
    let mut dict = Dictionary::new();
    dict.insert("dog", "nice animal", WordType::Noun);
    dict.insert("cat", "horrid animal", WordType::Noun);

    assert_eq!(Some("nice animal"), dict.lookup("dog"));
    assert_eq!(Some("horrid animal"), dict.lookup("cat"));
    assert_eq!(None, dict.lookup("hamster"));
}

#[test]
fn lookup_multiple_words() {
    let mut dict = Dictionary::new();
    dict.insert("paul_verlaine", "French poet", WordType::Noun);
    dict.insert("jack-o'-lantern", "Pumpkin carving", WordType::Noun);

    assert_eq!(Some("French poet"), dict.lookup("Paul Verlaine"));
    assert_eq!(Some("French poet"), dict.lookup("paul verlaine"));

    assert_eq!(Some("Pumpkin carving"), dict.lookup("Jack-o'-lantern"));
    assert_eq!(Some("Pumpkin carving"), dict.lookup("jack-o'-lantern"));
}

#[test]
fn lookup_accented() {
    let defn = "without the intrusion of a third person";
    let mut dict = Dictionary::new();
    dict.insert("tete-a-tete", defn, WordType::Noun);

    assert_eq!(Some(defn), dict.lookup("tête-à-tête"));
}

#[test]
fn len_counts_lemmas() {
    let mut dict = Dictionary::new();
    assert!(dict.is_empty());
    assert_eq!(dict.len(), 0);
    dict.insert("slide", "a small flat piece of glass", WordType::Noun);
    dict.insert("slide", "move smoothly", WordType::Verb);
    dict.insert("dog", "nice animal", WordType::Noun);
    assert!(!dict.is_empty());
    assert_eq!(dict.len(), 2);
}

#[test]
fn first_definition_is_the_best() {
    let mut dict = Dictionary::new();
    dict.insert("slide", "a small flat piece of glass", WordType::Noun);
    dict.insert("slide", "move smoothly", WordType::Verb);
    assert_eq!(dict.lookup("slide"), Some("a small flat piece of glass"));
    assert_eq!(dict.lookup("SLIDE"), Some("a small flat piece of glass"));
}

#[test]
fn lookup_falls_back_on_stems() {
    let mut dict = Dictionary::new()
        .with_exceptions(Exceptions::from_text("", "slid slide\n", "", ""));
    dict.insert("slide", "a small flat piece of glass", WordType::Noun);
    dict.insert("slide", "move smoothly", WordType::Verb);
    dict.insert("sandwich", "two slices of bread", WordType::Noun);
    dict.insert("change", "become different", WordType::Verb);

    assert_eq!(dict.lookup("slid"), Some("move smoothly"));
    assert_eq!(dict.lookup("sandwiches"), Some("two slices of bread"));
    assert_eq!(dict.lookup("changing"), Some("become different"));
    assert_eq!(dict.lookup("slides"), Some("a small flat piece of glass"));
    assert_eq!(dict.lookup("changes"), Some("become different"));
    assert_eq!(dict.lookup("sliding"), Some("move smoothly"));
    assert_eq!(dict.lookup("slider"), None);
    assert_eq!(dict.lookup_ascii("Sandwiches"), Some("two slices of bread"));
    assert_eq!(dict.lookup_stemming("sandwich"), None);
}
