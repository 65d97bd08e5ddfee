use wordfun::lines::{lines_of, lines_str, split_chars, split_str};
use wordfun::text::{ascii_str, ascii_string, bytes_eq, chars_of, push_decimal, str_eq, string_of};

const TEXTS: [&str; 14] = [
    "",
    "\n",
    "\r\n",
    "\r",
    "a",
    "a\n",
    "a\r\n",
    "a\n\nb",
    "a\r\r\nb\r",
    "one two  three",
    " lead and trail ",
    "é,ü\n北亰,x,\n,",
    "a,b,,c",
    ",",
];

#[test]
fn lines_are_those_of_the_standard_library() {
    for text in TEXTS {
        let expected: Vec<&str> = text.lines().collect();
        assert_eq!(lines_str(text), expected);
        let chars: Vec<char> = text.chars().collect();
        let got: Vec<String> = lines_of(&chars).iter().map(|l| l.iter().collect()).collect();
        assert_eq!(got, expected);
    }
}

#[test]
fn pieces_are_those_of_the_standard_library() {
    for text in TEXTS {
        for sep in [',', ' ', '\n'] {
            let expected: Vec<&str> = text.split(sep).collect();
            assert_eq!(split_str(text, sep as u8), expected);
            let chars: Vec<char> = text.chars().collect();
            let got: Vec<String> =
                split_chars(&chars, sep).iter().map(|p| p.iter().collect()).collect();
            assert_eq!(got, expected);
        }
    }
}

#[test]
fn characters_and_strings() {
    for text in TEXTS {
        let chars = chars_of(text);
        assert_eq!(chars, text.chars().collect::<Vec<char>>());
        assert_eq!(string_of(&chars), text);
        assert!(str_eq(text, &text.to_string()));
    }
    assert!(!str_eq("a", "b"));
    assert!(!str_eq("a", "ab"));
    assert!(bytes_eq(b"abc", b"abc"));
    assert!(!bytes_eq(b"abc", b"abd"));
    assert!(!bytes_eq(b"abc", b"ab"));
    assert_eq!(ascii_str(b"plain"), "plain");
    assert_eq!(ascii_string(b"3,7"), "3,7");
}

#[test]
fn numbers_in_decimal() {
    for n in [0usize, 1, 9, 10, 11, 99, 100, 101, 12345, usize::MAX] {
        let mut out = b"n=".to_vec();
        push_decimal(&mut out, n);
        assert_eq!(String::from_utf8(out).unwrap(), format!("n={}", n));
    }
}
