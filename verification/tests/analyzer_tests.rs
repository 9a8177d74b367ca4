use blocklist_check::analyzer::{subset_pairs, union_of, unmatched_entries};
use blocklist_check::domain_set::DomainSet;
use blocklist_check::loader::NamedDomainSet;

fn set_of(domains: &[&str]) -> DomainSet {
    let mut ds = DomainSet::new();
    for d in domains {
        ds.insert(String::from(*d));
    }
    ds
}

fn named(name: &str, domains: &[&str]) -> NamedDomainSet {
    NamedDomainSet { name: String::from(name), domains: set_of(domains) }
}

#[test]
fn strict_subset_reported_one_way() {
    let lists = vec![named("A", &["a", "b"]), named("B", &["a", "b", "c"])];
    let reports = subset_pairs(&lists);
    assert_eq!(reports.len(), 1);
    assert_eq!(reports[0].subset_name, "A");
    assert_eq!(reports[0].superset_name, "B");
}

#[test]
fn equal_contents_reported_both_ways() {
    let lists = vec![named("A", &["a", "b"]), named("B", &["b", "a"])];
    let reports = subset_pairs(&lists);
    assert_eq!(reports.len(), 2);
    assert_eq!(reports[0].subset_name, "A");
    assert_eq!(reports[0].superset_name, "B");
    assert_eq!(reports[1].subset_name, "B");
    assert_eq!(reports[1].superset_name, "A");
}

#[test]
fn lists_sharing_a_name_are_still_compared() {
    let lists = vec![named("same", &["a"]), named("same", &["a", "b"])];
    let reports = subset_pairs(&lists);
    assert_eq!(reports.len(), 1);
    assert_eq!(reports[0].subset_name, "same");
    assert_eq!(reports[0].superset_name, "same");
}

#[test]
fn a_list_is_never_compared_with_itself() {
    let lists = vec![named("A", &["a"])];
    let reports = subset_pairs(&lists);
    assert_eq!(reports.len(), 0);
}

#[test]
fn unmatched_entries_reported_per_allow_list() {
    let allow = vec![named("allowlist", &["a", "b", "c"])];
    let blocked = set_of(&["b"]);
    let reports = unmatched_entries(&allow, &blocked);
    assert_eq!(reports.len(), 1);
    assert_eq!(reports[0].name, "allowlist");
    assert_eq!(reports[0].domains.len(), 2);
    assert!(reports[0].domains.contains(&String::from("a")));
    assert!(reports[0].domains.contains(&String::from("c")));
    assert!(!reports[0].domains.contains(&String::from("b")));
}

#[test]
fn covered_allow_list_yields_no_report() {
    let allow = vec![named("allowlist", &["a", "b"])];
    let blocked = set_of(&["a", "b", "c"]);
    let reports = unmatched_entries(&allow, &blocked);
    assert_eq!(reports.len(), 0);
}

#[test]
fn union_collects_all_domains_once() {
    let lists = vec![named("A", &["a", "b"]), named("B", &["b", "c"])];
    let u = union_of(&lists);
    assert_eq!(u.len(), 3);
    assert!(u.contains(&String::from("a")));
    assert!(u.contains(&String::from("b")));
    assert!(u.contains(&String::from("c")));
}

#[test]
fn union_of_no_lists_is_empty() {
    let lists: Vec<NamedDomainSet> = Vec::new();
    let u = union_of(&lists);
    assert!(u.is_empty());
    assert_eq!(u.len(), 0);
}
