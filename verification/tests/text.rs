use cert_fixer::text::{append_chars, chars_of, contains_chars, matches_at};

fn chars(s: &str) -> Vec<char> {
    s.chars().collect()
}

#[test]
fn chars_of_gives_every_character() {
    assert_eq!(chars_of(""), Vec::<char>::new());
    assert_eq!(chars_of("a b"), vec!['a', ' ', 'b']);
    assert_eq!(chars_of("é\n✓"), vec!['é', '\n', '✓']);
}

#[test]
fn append_chars_adds_at_the_end() {
    let mut out = String::from("ab");
    append_chars(&mut out, &chars("cd✓"));
    assert_eq!(out, "abcd✓");
    append_chars(&mut out, &chars(""));
    assert_eq!(out, "abcd✓");
}

#[test]
fn matches_at_compares_in_place() {
    assert!(matches_at(&chars("hello"), &chars("ell"), 1));
    assert!(!matches_at(&chars("hello"), &chars("ell"), 0));
    assert!(matches_at(&chars("hello"), &chars(""), 5));
    assert!(matches_at(&chars("hello"), &chars("hello"), 0));
}

#[test]
fn contains_chars_finds_a_needle_anywhere() {
    assert!(contains_chars(&chars("hello"), &chars("hel")));
    assert!(contains_chars(&chars("hello"), &chars("llo")));
    assert!(contains_chars(&chars("hello"), &chars("l")));
    assert!(contains_chars(&chars("hello"), &chars("")));
    assert!(contains_chars(&chars(""), &chars("")));
    assert!(!contains_chars(&chars(""), &chars("a")));
    assert!(!contains_chars(&chars("hello"), &chars("hellos")));
    assert!(!contains_chars(&chars("hello"), &chars("lol")));
    assert!(contains_chars(&chars("aaab"), &chars("aab")));
}
