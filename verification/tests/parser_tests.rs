use blocklist_check::domain_set::DomainSet;
use blocklist_check::parser::{encode_lines_exec, parse_list};
use blocklist_check::DomainListError;

fn parsed(content: &str) -> DomainSet {
    match parse_list(content) {
        Ok(ds) => ds,
        Err(_) => panic!("expected a successful parse"),
    }
}

#[test]
fn hosts_line_and_bare_line() {
    let ds = parsed("0.0.0.0 a.com # note\nb.com\n");
    assert_eq!(ds.len(), 2);
    assert!(ds.contains(&String::from("a.com")));
    assert!(ds.contains(&String::from("b.com")));
}

#[test]
fn blank_and_comment_lines_fail_with_empty_list() {
    let r = parse_list("\n   \n# only a comment\n\t\n  # another\n");
    match r {
        Ok(_) => panic!("expected EmptyList"),
        Err(e) => assert_eq!(e, DomainListError::EmptyList),
    }
}

#[test]
fn empty_content_fails_with_empty_list() {
    match parse_list("") {
        Ok(_) => panic!("expected EmptyList"),
        Err(e) => assert_eq!(e, DomainListError::EmptyList),
    }
}

#[test]
fn three_token_lines_are_ignored() {
    let ds = parsed("one two three\nkept.com\n");
    assert_eq!(ds.len(), 1);
    assert!(ds.contains(&String::from("kept.com")));
    assert!(!ds.contains(&String::from("two")));
}

#[test]
fn comment_suffix_is_stripped() {
    let ds = parsed("a.com# tail\nb.com # tail\n# gone.com\n");
    assert_eq!(ds.len(), 2);
    assert!(ds.contains(&String::from("a.com")));
    assert!(ds.contains(&String::from("b.com")));
    assert!(!ds.contains(&String::from("gone.com")));
}

#[test]
fn duplicates_collapse() {
    let ds = parsed("a.com\n0.0.0.0 a.com\na.com\n");
    assert_eq!(ds.len(), 1);
}

#[test]
fn no_trailing_newline_still_parses() {
    let ds = parsed("last.com");
    assert_eq!(ds.len(), 1);
    assert!(ds.contains(&String::from("last.com")));
}

#[test]
fn carriage_returns_are_whitespace() {
    let ds = parsed("0.0.0.0 a.com\r\nb.com\r\n");
    assert_eq!(ds.len(), 2);
    assert!(ds.contains(&String::from("a.com")));
    assert!(ds.contains(&String::from("b.com")));
}

#[test]
fn parsing_is_idempotent_on_reencoded_output() {
    let ds = parsed("0.0.0.0 a.com # note\nb.com\nnoise one two three\nb.com\n");
    let encoded = encode_lines_exec(ds.as_vec());
    let again = parsed(encoded.as_str());
    assert_eq!(ds.len(), again.len());
    assert!(ds.is_subset(&again));
    assert!(again.is_subset(&ds));
}

#[test]
fn error_messages() {
    assert_eq!(DomainListError::EmptyList.message(), "List is empty");
    assert_eq!(
        DomainListError::ReadmeError.message(),
        "Couldn't read blacklists from README.md"
    );
}
