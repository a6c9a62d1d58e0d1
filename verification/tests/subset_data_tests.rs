use mkwebfont::subset_data::{build_from_raw, build_from_table, RawSubset};

fn raw(name: &str, group: Option<&str>, chars: &str) -> RawSubset {
    RawSubset { name: name.to_string(), group: group.map(|g| g.to_string()), chars: chars.to_string() }
}

#[test]
fn subsets_split_into_groups() {
    let data = build_from_raw(&[
        raw("latin", None, "abc"),
        raw("kr1", Some("korean"), "가"),
        raw("greek", None, "α"),
        raw("kr2", Some("korean"), "각"),
        raw("jp1", Some("japanese"), "あ"),
    ]);
    let plain: Vec<_> = data.subsets.iter().map(|s| s.name.clone()).collect();
    assert_eq!(plain, vec!["latin", "greek"]);
    assert_eq!(data.subsets[0].map.iter().collect::<Vec<_>>(), vec![97, 98, 99]);
    let mut groups: Vec<_> = data.groups.iter().map(|g| (g.name.clone(), g.subsets.iter().map(|s| s.name.clone()).collect::<Vec<_>>())).collect();
    groups.sort();
    assert_eq!(groups, vec![
        ("japanese".to_string(), vec!["jp1".to_string()]),
        ("korean".to_string(), vec!["kr1".to_string(), "kr2".to_string()]),
    ]);
}

#[test]
fn lookup_by_name_takes_the_last() {
    let data = build_from_raw(&[raw("a", None, "x"), raw("a", None, "y")]);
    let found = data.by_name("a").unwrap();
    assert_eq!(found.map.iter().collect::<Vec<_>>(), vec![121]);
    assert!(data.by_name("b").is_none());
}

#[test]
fn a_later_group_claims_every_subset_of_the_name() {
    let data = build_from_raw(&[raw("a", None, "x"), raw("a", Some("g"), "y")]);
    assert!(data.subsets.is_empty());
    assert_eq!(data.groups.len(), 1);
    assert_eq!(data.groups[0].subsets.len(), 2);
}

#[test]
fn table_has_no_groups() {
    let data = build_from_table(vec![("one".to_string(), "ab".to_string()), ("two".to_string(), "".to_string())]);
    assert!(data.groups.is_empty());
    assert_eq!(data.subsets.len(), 2);
    assert!(data.subsets[1].map.is_empty());
    assert_eq!(data.by_name("one").unwrap().map.len(), 2);
}
