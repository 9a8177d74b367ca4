use blocklist_check::loader::collect_lists;

#[test]
fn failing_source_does_not_stop_later_sources() {
    let inputs = vec![
        (String::from("http://x/list1"), Some(String::from("a.com\n"))),
        (String::from("http://x/broken"), None),
        (String::from("http://x/list2"), Some(String::from("b.com\n"))),
    ];
    let lists = collect_lists(inputs);
    assert_eq!(lists.len(), 2);
    assert_eq!(lists[0].name, "http://x/list1");
    assert!(lists[0].domains.contains(&String::from("a.com")));
    assert_eq!(lists[1].name, "http://x/list2");
    assert!(lists[1].domains.contains(&String::from("b.com")));
}

#[test]
fn unparsable_source_is_omitted() {
    let inputs = vec![
        (String::from("http://x/comments"), Some(String::from("# nothing here\n\n"))),
        (String::from("http://x/list"), Some(String::from("c.com\n"))),
    ];
    let lists = collect_lists(inputs);
    assert_eq!(lists.len(), 1);
    assert_eq!(lists[0].name, "http://x/list");
}

#[test]
fn no_inputs_no_lists() {
    let lists = collect_lists(Vec::new());
    assert_eq!(lists.len(), 0);
}

#[test]
fn allowlist_style_single_input() {
    let inputs = vec![(String::from("allowlist"), Some(String::from("0.0.0.0 d.com\n")))];
    let lists = collect_lists(inputs);
    assert_eq!(lists.len(), 1);
    assert_eq!(lists[0].name, "allowlist");
    assert_eq!(lists[0].domains.len(), 1);
    assert!(lists[0].domains.contains(&String::from("d.com")));
}
