use blocklist_check::manifest::get_block_list_urls;
use blocklist_check::DomainListError;

#[test]
fn extracts_sources_in_order() {
    let text = "## Blocklists\n- http://x/list1\n- http://x/list2\n## Allowlists\n";
    let urls = match get_block_list_urls(text) {
        Ok(urls) => urls,
        Err(_) => panic!("expected extraction to succeed"),
    };
    assert_eq!(urls.len(), 2);
    assert_eq!(urls[0], "http://x/list1");
    assert_eq!(urls[1], "http://x/list2");
}

#[test]
fn missing_allowlists_marker_fails() {
    let text = "## Blocklists\n- http://x/list1\n";
    match get_block_list_urls(text) {
        Ok(_) => panic!("expected ReadmeError"),
        Err(e) => assert_eq!(e, DomainListError::ReadmeError),
    }
}

#[test]
fn missing_blocklists_marker_fails() {
    let text = "- http://x/list1\n## Allowlists\n";
    match get_block_list_urls(text) {
        Ok(_) => panic!("expected ReadmeError"),
        Err(e) => assert_eq!(e, DomainListError::ReadmeError),
    }
}

#[test]
fn section_without_sources_fails() {
    let text = "## Blocklists\nprose only\n# a comment\n## Allowlists\n- http://ignored\n";
    match get_block_list_urls(text) {
        Ok(_) => panic!("expected ReadmeError"),
        Err(e) => assert_eq!(e, DomainListError::ReadmeError),
    }
}

#[test]
fn non_item_lines_are_skipped() {
    let text = "intro\n## Blocklists\n\nSome prose about lists.\n# commented - http://x/not-this\n  - http://x/indented\n-http://x/no-space\n- http://x/plain\n## Allowlists\n- http://x/allow-side\n";
    let urls = match get_block_list_urls(text) {
        Ok(urls) => urls,
        Err(_) => panic!("expected extraction to succeed"),
    };
    assert_eq!(urls.len(), 2);
    assert_eq!(urls[0], "http://x/indented");
    assert_eq!(urls[1], "http://x/plain");
}

#[test]
fn trailing_whitespace_is_trimmed_from_sources() {
    let text = "## Blocklists\n- http://x/padded   \n## Allowlists\n";
    let urls = match get_block_list_urls(text) {
        Ok(urls) => urls,
        Err(_) => panic!("expected extraction to succeed"),
    };
    assert_eq!(urls.len(), 1);
    assert_eq!(urls[0], "http://x/padded");
}
