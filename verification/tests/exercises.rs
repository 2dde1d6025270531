use avl_tree_set::exercises::{assignment1, assignment2, assignment3, assignment4, assignment5};

#[test]
fn all() {
    assert_eq!(assignment1("abc"), true);
    assert_eq!(assignment1("test"), false);

    assert_eq!(assignment2("abc", "cba"), true);
    assert_eq!(assignment2("a", "b"), false);

    assert_eq!(assignment3("a b"), "a%20b");

    assert_eq!(assignment4("tact coa"), true);
    assert_eq!(assignment4("tact"), false);

    assert_eq!(assignment5("abc", "abd"), true);
}

#[test]
fn unique_letters_edge_cases() {
    assert!(assignment1(""));
    assert!(assignment1("a"));
    assert!(!assignment1("aa"));
    assert!(!assignment1("abca"));
    assert!(assignment1("aA"));
    assert!(!assignment1("\u{e9}t\u{e9}"));
    assert!(assignment1("\u{e9}te"));
}

#[test]
fn rearrangements() {
    assert!(assignment2("", ""));
    assert!(assignment2("aab", "aba"));
    assert!(!assignment2("aab", "abb"));
    assert!(!assignment2("ab", "abc"));
    assert!(!assignment2("abc", "ab"));
    assert!(!assignment2("aa", "ab"));
    assert!(!assignment2("ab", "aa"));
}

#[test]
fn spaces_are_escaped() {
    assert_eq!(assignment3(""), "");
    assert_eq!(assignment3(" "), "%20");
    assert_eq!(assignment3("abc"), "abc");
    assert_eq!(assignment3("  a  "), "%20%20a%20%20");
    assert_eq!(assignment3("Mr John Smith"), "Mr%20John%20Smith");
    assert_eq!(assignment3("100% sure"), "100%%20sure");
}

#[test]
fn at_most_one_odd_letter() {
    assert!(assignment4(""));
    assert!(assignment4("   "));
    assert!(assignment4("a"));
    assert!(assignment4("aab"));
    assert!(!assignment4("ab"));
    assert!(assignment4("a b a"));
    assert!(!assignment4("abc abc xy"));
    assert!(assignment4("abc abc x"));
}

#[test]
fn one_place_apart() {
    assert!(assignment5("", ""));
    assert!(assignment5("abc", "abc"));
    assert!(assignment5("abc", "xbc"));
    assert!(!assignment5("abc", "xbz"));
    assert!(assignment5("ab", "abc"));
    assert!(assignment5("ab", "xbc"));
    assert!(!assignment5("ab", "xyc"));
    assert!(!assignment5("a", "abc"));
    assert!(!assignment5("abcd", "ab"));
    assert!(!assignment5("xyc", "ab"));
}
