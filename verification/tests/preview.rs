use wordfun::preview::display_count;
use wordfun::{plural, Lexicon, Popularity, Preview, PreviewWord, SearchKey};

// This does roughly what the UI is going to do.
fn format_preview(search: &SearchKey, results: &[&str], max_count: usize, wiggle: usize) -> String {
    let popularity = Popularity::default();
    let preview = Preview::new(max_count, wiggle, &popularity).build(search, results);
    // rats (4): 5 matches (arts, rats, star, tars, tsar)
    let search = format!("{} ({})", preview.query, preview.lengths);

    let how_many = plural(preview.full_count, "match", "matches");

    let mut word_list = preview
        .words
        .iter()
        .map(|pw| {
            if pw.ranked {
                format!("{}*", pw.text)
            } else {
                pw.text.to_string()
            }
        })
        .collect::<Vec<_>>();

    if preview.full_count > word_list.len() {
        word_list.push("...".to_string());
    }

    format!("{}: {} ({})", &search, &how_many, &word_list.join(", "))
}

fn results(search: &str, max: usize, wiggle: usize) -> String {
    let words = vec!["aaa", "aab", "aac", "aad", "aae", "aaf", "aag", "aah"];
    let lex = Lexicon::new(&words);

    let results = lex.find_word(search);
    format_preview(&results.key, &results.words, max, wiggle)
}

#[test]
fn test_format_preview() {
    let lex = Lexicon::new(&["abc", "def", "ghij"]);
    let results = lex.find_word("...");

    assert_eq!(
        "... (3): 2 matches (abc, def)",
        format_preview(&results.key, &results.words, 10, 0)
    )
}

#[test]
fn format_preview_two_words() {
    let lex = Lexicon::new(&["oneword", "two words", "three whole words"]);
    let results = lex.find_word(".../W.R..");
    assert_eq!(
        ".../w.r.. (3,5): 1 match (two words)",
        format_preview(&results.key, &results.words, 10, 0)
    )
}

#[test]
fn format_preview_max_len_results() {
    let lex = Lexicon::new(&["aaa", "aab", "aac"]);

    let results = lex.find_word("...");
    assert_eq!(
        "... (3): 3 matches (aaa, aab, aac)",
        format_preview(&results.key, &results.words, 3, 0)
    )
}

#[test]
fn wiggle_no_room() {
    assert_eq!(
        "aa. (3): 8 matches (aaa, aab, aac, aad, aae, ...)",
        results("aa.", 5, 0)
    );
}

#[test]
fn wiggle_not_enough_room() {
    assert_eq!(
        "aa. (3): 8 matches (aaa, aab, aac, aad, aae, ...)",
        results("aa.", 5, 2)
    );
}

#[test]
fn wiggle_enough_room() {
    assert_eq!(
        "aa. (3): 8 matches (aaa, aab, aac, aad, aae, aaf, aag, aah)",
        results("aa.", 5, 3)
    );
}

#[test]
fn wiggle_plenty_of_room() {
    assert_eq!(
        "aa. (3): 8 matches (aaa, aab, aac, aad, aae, aaf, aag, aah)",
        results("aa.", 5, 5)
    );
}

#[test]
fn display_count_bends_by_the_wiggle() {
    assert_eq!(display_count(10, 10, 2), 10);
    assert_eq!(display_count(11, 10, 2), 11);
    assert_eq!(display_count(12, 10, 2), 12);
    assert_eq!(display_count(13, 10, 2), 10);
    assert_eq!(display_count(14, 10, 2), 10);
    assert_eq!(display_count(0, 10, 2), 0);
    assert_eq!(display_count(3, 10, 0), 3);
    assert_eq!(display_count(7, 0, 0), 0);
    assert_eq!(display_count(usize::MAX, usize::MAX, usize::MAX), usize::MAX);
    assert_eq!(display_count(usize::MAX, 5, usize::MAX), usize::MAX);
    assert_eq!(display_count(usize::MAX, 5, 7), 5);
}

#[test]
fn popular_words_come_first() {
    let popularity = Popularity::from(&["star", "rats"]);
    let lex = Lexicon::new(&["arts", "rats", "star", "tars", "tsar"]);
    let found = lex.anagram("rats");
    let preview = Preview::new(3, 1, &popularity).build(&found.key, &found.words);
    assert_eq!(preview.full_count, 5);
    assert_eq!(preview.query, "rats");
    assert_eq!(preview.lengths, "4");
    assert_eq!(
        preview.words,
        vec![
            PreviewWord { text: "star".to_string(), ranked: true },
            PreviewWord { text: "rats".to_string(), ranked: true },
            PreviewWord { text: "arts".to_string(), ranked: false },
        ]
    );
    let all = Preview::new(3, 2, &popularity).build(&found.key, &found.words);
    assert_eq!(all.words.len(), 5);
    assert_eq!(all.words[4].text, "tsar");
}
