use quotebot::text::{contains_chars, normalize, str_lt};

#[test]
fn normalize_lowercases_and_strips_spaces() {
    assert_eq!(normalize("Hello World"), "helloworld".chars().collect::<Vec<char>>());
    assert_eq!(normalize("GOGOGO"), "gogogo".chars().collect::<Vec<char>>());
    assert_eq!(normalize(""), Vec::<char>::new());
    assert_eq!(normalize("   "), Vec::<char>::new());
    // Only ASCII letters are lowercased; other characters pass through.
    assert_eq!(normalize("A-1 Ü"), "a-1Ü".chars().collect::<Vec<char>>());
    // Characters just outside the uppercase range are untouched.
    assert_eq!(normalize("@AZ["), "@az[".chars().collect::<Vec<char>>());
}

#[test]
fn contains_chars_finds_substrings() {
    let needle: Vec<char> = "ell".chars().collect();
    assert!(contains_chars("hello", &needle));
    assert!(!contains_chars("help", &needle));
    // The empty needle occurs in every string.
    assert!(contains_chars("", &Vec::new()));
    assert!(contains_chars("abc", &Vec::new()));
    // A needle longer than the haystack never occurs.
    assert!(!contains_chars("ab", &"abc".chars().collect()));
    // A match at the very end is found.
    assert!(contains_chars("abc", &"bc".chars().collect()));
}

#[test]
fn str_lt_orders_lexicographically() {
    assert!(str_lt("a", "b"));
    assert!(str_lt("a", "ab"));
    assert!(!str_lt("ab", "a"));
    assert!(!str_lt("a", "a"));
    assert!(str_lt("", "a"));
    assert!(str_lt("Z", "a"));
}
