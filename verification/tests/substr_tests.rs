use algokit::substr::substr;

#[test]
fn check_simple_match_head_one_ex() {
    let text = "Hello World!";
    let pattern = "H";

    let offset = substr(text, pattern);
    assert_eq!(Some(0), offset);
}

#[test]
fn check_simple_match_head_ex() {
    let text = "Hello World!";
    let pattern = "Hello";

    let offset = substr(text, pattern);
    assert_eq!(Some(0), offset);
}

#[test]
fn check_simple_match_tail_ex() {
    let text = "Hello World!";
    let pattern = "World!";

    let offset = substr(text, pattern);
    assert_eq!(Some(6), offset);
}

#[test]
fn check_simple_match_tail_one_ex() {
    let text = "Hello World!";
    let pattern = "W";

    let offset = substr(text, pattern);
    assert_eq!(Some(6), offset);
}

#[test]
fn check_simple_match_middle_ex() {
    let text = "Hello World, and to all who enjoy it.";
    let pattern = "World,";

    let offset = substr(text, pattern);
    assert_eq!(Some(6), offset);
}

#[test]
fn check_empty_pattern() {
    assert_eq!(substr("Hello", ""), None);
}

#[test]
fn check_pattern_longer_than_text() {
    assert_eq!(substr("Hi", "Hello"), None);
}

#[test]
fn check_no_match() {
    assert_eq!(substr("Hello World!", "xyz"), None);
}

#[test]
fn check_whole_text_match() {
    assert_eq!(substr("abc", "abc"), Some(0));
}
