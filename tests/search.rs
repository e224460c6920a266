use minigrep::search::search;

#[test]
fn one_result() {
    let query = "duct";
    let contents = "Rust:\nsafe, fast, productive.\nPick three.";
    assert_eq!(vec!["safe, fast, productive."], search(query, contents));
}

#[test]
fn case_sensitive() {
    let contents = "Rust:\nsafe, fast, productive.";
    assert_eq!(vec!["Rust:"], search("Rust", contents));
    assert_eq!(Vec::<&str>::new(), search("rust", contents));
}

#[test]
fn empty_query_returns_every_line() {
    let contents = "Rust:\nsafe, fast, productive.\nPick three.";
    assert_eq!(
        vec!["Rust:", "safe, fast, productive.", "Pick three."],
        search("", contents)
    );
}

#[test]
fn empty_contents_returns_nothing() {
    assert_eq!(Vec::<&str>::new(), search("Rust", ""));
    assert_eq!(Vec::<&str>::new(), search("", ""));
}

#[test]
fn matches_keep_their_order() {
    let contents = "b one\na\nb two\nc\nb three";
    assert_eq!(vec!["b one", "b two", "b three"], search("b", contents));
}

#[test]
fn no_match_is_empty() {
    let contents = "alpha\nbeta\ngamma";
    assert_eq!(Vec::<&str>::new(), search("delta", contents));
}

#[test]
fn query_longer_than_every_line() {
    assert_eq!(Vec::<&str>::new(), search("abcdef", "abc\nab"));
}

#[test]
fn whole_line_and_line_edges() {
    let contents = "abc\nxabc\nabcx\nab c";
    assert_eq!(vec!["abc", "xabc", "abcx"], search("abc", contents));
}

#[test]
fn final_newline_adds_no_line() {
    assert_eq!(vec!["one", "two"], search("", "one\ntwo\n"));
}

#[test]
fn empty_lines_are_kept_for_empty_query() {
    assert_eq!(vec!["a", "", "b", ""], search("", "a\n\nb\n\n"));
}

#[test]
fn carriage_return_before_newline_is_dropped() {
    assert_eq!(vec!["one", "two"], search("", "one\r\ntwo\r\n"));
    assert_eq!(Vec::<&str>::new(), search("\r", "one\r\ntwo\r\n"));
}

#[test]
fn lone_carriage_return_is_kept() {
    assert_eq!(vec!["a\rb", "c\r"], search("", "a\rb\nc\r"));
}

#[test]
fn multibyte_characters() {
    let contents = "grüße\nstraße\nhallo";
    assert_eq!(vec!["grüße", "straße"], search("ße", contents));
    assert_eq!(vec!["grüße"], search("ü", contents));
}

#[test]
fn agrees_with_lines_and_contains() {
    let contents = "lorem ipsum\r\ndolor sit\n\namet, sit amet\nconsectetur\nsit";
    for query in ["sit", "", "t", "amet", "zzz", "sit amet"] {
        let expected: Vec<&str> = contents.lines().filter(|l| l.contains(query)).collect();
        assert_eq!(expected, search(query, contents));
    }
}
