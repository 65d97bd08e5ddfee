use wordfun::SortedAscii;

#[test]
fn from_bytes_sorts() {
    assert_eq!(SortedAscii::from_bytes(b"retain").to_str(), "aeinrt");
    assert_eq!(SortedAscii::from_bytes(b"banana").to_str(), "aaabnn");
    assert_eq!(SortedAscii::from_bytes(b"").to_str(), "");
    assert_eq!(SortedAscii::from_bytes(b"zZaA").as_bytes(), b"AZaz");
    assert_eq!(SortedAscii::from_bytes(b"banana").len(), 6);
}

#[test]
fn subset_counts_repeats() {
    let sorted = |s: &str| SortedAscii::from_bytes(s.as_bytes());
    assert!(sorted("").is_subset(&sorted("")));
    assert!(sorted("").is_subset(&sorted("abc")));
    assert!(!sorted("a").is_subset(&sorted("")));
    assert!(sorted("abc").is_subset(&sorted("cab")));
    assert!(sorted("aab").is_subset(&sorted("baab")));
    assert!(!sorted("aab").is_subset(&sorted("abb")));
    assert!(!sorted("aaa").is_subset(&sorted("aa")));
    assert!(sorted("ace").is_subset(&sorted("abcde")));
    assert!(!sorted("acf").is_subset(&sorted("abcde")));
    assert!(!sorted("z").is_subset(&sorted("abcde")));
    assert!(!sorted("a").is_subset(&sorted("bcde")));
    assert!(sorted("ee").is_subset(&sorted("abcdee")));
}

#[test]
fn subset_agrees_with_counting() {
    let words = ["", "a", "aa", "ab", "ba", "abc", "aabbcc", "face", "efface", "zz", "az"];
    for a in words {
        for b in words {
            let mut counts = [0i32; 256];
            for &x in b.as_bytes() {
                counts[x as usize] += 1;
            }
            for &x in a.as_bytes() {
                counts[x as usize] -= 1;
            }
            let expected = counts.iter().all(|&c| c >= 0);
            let got = SortedAscii::from_bytes(a.as_bytes()).is_subset(&SortedAscii::from_bytes(b.as_bytes()));
            assert_eq!(got, expected);
        }
    }
}
