use nubila::shader_source::{
    find_byte, find_first, find_include, include_path, replace_include, splice, stands_at,
    IncludeScan, QUOTE,
};

#[test]
fn finds_the_first_directive_and_its_path() {
    let text = b"#version 430\n#include \"common.glsl\"\nvoid main() {}\n#include \"b\"";
    assert_eq!(
        find_include(text),
        IncludeScan::Found {
            directive: 13,
            path_start: 23,
            path_end: 34
        }
    );
    assert_eq!(include_path(text, 23, 34), b"common.glsl".to_vec());
}

#[test]
fn text_without_directive() {
    assert_eq!(find_include(b"void main() {}"), IncludeScan::Absent);
    assert_eq!(find_include(b""), IncludeScan::Absent);
    assert_eq!(find_include(b"#includ"), IncludeScan::Absent);
    assert_eq!(find_include(b"# include \"x\""), IncludeScan::Absent);
}

#[test]
fn directive_without_quoted_path() {
    assert_eq!(
        find_include(b"a\n#include <x>"),
        IncludeScan::Unquoted { directive: 2 }
    );
    assert_eq!(
        find_include(b"#include \"x"),
        IncludeScan::Unquoted { directive: 0 }
    );
    // A quote in front of the directive does not count.
    assert_eq!(
        find_include(b"\"q\" #include x"),
        IncludeScan::Unquoted { directive: 4 }
    );
}

#[test]
fn directive_is_replaced_up_to_its_closing_quote() {
    let text = b"a\n#include \"f\"\nb";
    let scan = find_include(text);
    assert_eq!(
        scan,
        IncludeScan::Found {
            directive: 2,
            path_start: 12,
            path_end: 13
        }
    );
    assert_eq!(replace_include(text, 2, 13, b"X;Y"), b"a\nX;Y\nb".to_vec());
    assert_eq!(replace_include(text, 2, 13, b""), b"a\n\nb".to_vec());
}

#[test]
fn empty_path_is_found() {
    assert_eq!(
        find_include(b"#include \"\""),
        IncludeScan::Found {
            directive: 0,
            path_start: 10,
            path_end: 10
        }
    );
    assert_eq!(include_path(b"#include \"\"", 10, 10), Vec::<u8>::new());
}

#[test]
fn search_helpers() {
    assert!(stands_at(b"abcabc", b"abc", 3));
    assert!(!stands_at(b"abcabc", b"abc", 4));
    assert!(!stands_at(b"ab", b"abc", 0));
    assert!(stands_at(b"ab", b"", 2));
    assert!(!stands_at(b"ab", b"", 3));
    assert_eq!(find_first(b"abcabc", b"bc", 0), Some(1));
    assert_eq!(find_first(b"abcabc", b"bc", 2), Some(4));
    assert_eq!(find_first(b"abcabc", b"bc", 5), None);
    assert_eq!(find_first(b"abc", b"abcd", 0), None);
    assert_eq!(find_first(b"abc", b"", 3), Some(3));
    assert_eq!(find_byte(b"a\"b\"", QUOTE, 0), Some(1));
    assert_eq!(find_byte(b"a\"b\"", QUOTE, 2), Some(3));
    assert_eq!(find_byte(b"a\"b\"", QUOTE, 4), None);
    assert_eq!(find_byte(b"a\"b\"", QUOTE, 9), None);
}

#[test]
fn splice_replaces_a_range() {
    assert_eq!(splice(b"hello world", 0, 5, b"bye"), b"bye world".to_vec());
    assert_eq!(splice(b"hello", 5, 5, b"!"), b"hello!".to_vec());
    assert_eq!(splice(b"hello", 1, 4, b""), b"ho".to_vec());
    assert_eq!(splice(b"", 0, 0, b"x"), b"x".to_vec());
}
