use minigrep::config::{ArgumentError, Config};

fn strings(items: &[&str]) -> Vec<String> {
    items.iter().map(|s| s.to_string()).collect()
}

#[test]
fn build_without_query_fails() {
    let err = Config::build(strings(&["prog"])).err().unwrap();
    assert_eq!(ArgumentError::MissingQuery, err);
    assert_eq!("Didn't get a query string", err.message());
    assert!(err.message().contains("query"));
}

#[test]
fn build_without_anything_fails() {
    let err = Config::build(Vec::new()).err().unwrap();
    assert_eq!(ArgumentError::MissingQuery, err);
}

#[test]
fn build_without_file_path_fails() {
    let err = Config::build(strings(&["prog", "needle"])).err().unwrap();
    assert_eq!(ArgumentError::MissingFilePath, err);
    assert_eq!("Didn't get a file path", err.message());
    assert!(err.message().contains("file path"));
}

#[test]
fn build_with_both_values() {
    let config = Config::build(strings(&["prog", "needle", "haystack.txt"])).ok().unwrap();
    assert_eq!("needle", config.query);
    assert_eq!("haystack.txt", config.file_path);
}

#[test]
fn build_ignores_extra_arguments() {
    let config = Config::build(strings(&["prog", "a", "b", "c"])).ok().unwrap();
    assert_eq!("a", config.query);
    assert_eq!("b", config.file_path);
}

#[test]
fn build_accepts_empty_values() {
    let config = Config::build(strings(&["prog", "", ""])).ok().unwrap();
    assert_eq!("", config.query);
    assert_eq!("", config.file_path);
}
