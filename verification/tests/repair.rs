use agm_cli::commands::repair::{resolve_rule_ids, rule_line, sorted_unique, split_rule_ids, summarize_rewrites};

fn ids(v: &[&str]) -> Vec<String> {
    v.iter().map(|s| s.to_string()).collect()
}

#[test]
fn test_resolve_rule_ids_accepts_known() {
    let valid = ids(&["R-CRLF", "R-TABS", "R-KEY"]);
    let (d, o) = resolve_rule_ids(&valid, &ids(&["R-TABS"]), Some(" R-KEY , ,R-CRLF")).unwrap();
    assert_eq!(d, ids(&["R-TABS"]));
    assert_eq!(o, Some(ids(&["R-KEY", "R-CRLF"])));
    let (d, o) = resolve_rule_ids(&valid, &vec![], None).unwrap();
    assert!(d.is_empty());
    assert!(o.is_none());
}

#[test]
fn test_resolve_rule_ids_reports_first_unknown() {
    let valid = ids(&["R-CRLF", "R-TABS"]);
    assert_eq!(
        resolve_rule_ids(&valid, &ids(&["R-TABS", "R-NOPE", "R-X"]), Some("R-Y")).unwrap_err(),
        "unknown rule id 'R-NOPE' (valid: R-CRLF, R-TABS)"
    );
    assert_eq!(
        resolve_rule_ids(&valid, &vec![], Some("R-CRLF,R-Y")).unwrap_err(),
        "unknown rule id 'R-Y' (valid: R-CRLF, R-TABS)"
    );
}

#[test]
fn test_split_rule_ids_trims_and_drops_empty() {
    assert_eq!(split_rule_ids(""), Vec::<String>::new());
    assert_eq!(split_rule_ids(" a,b ,, c "), ids(&["a", "b", "c"]));
}

#[test]
fn test_sorted_unique() {
    assert_eq!(sorted_unique(&vec![5, 1, 5, 3, 1]), vec![1, 3, 5]);
    assert_eq!(sorted_unique(&vec![]), Vec::<usize>::new());
}

#[test]
fn test_summarize_rewrites_groups_by_first_appearance() {
    let records = vec![
        ("R-TABS".to_owned(), 9),
        ("R-CRLF".to_owned(), 1),
        ("R-TABS".to_owned(), 2),
        ("R-TABS".to_owned(), 9),
    ];
    let s = summarize_rewrites(&records);
    assert_eq!(s.len(), 2);
    assert_eq!(s[0].rule_id, "R-TABS");
    assert_eq!(s[0].count, 3);
    assert_eq!(s[0].lines, vec![2, 9]);
    assert_eq!(rule_line(&s[0]), format!("  {:<22} \u{00d7}3 (lines 2, 9)", "R-TABS"));
    assert_eq!(rule_line(&s[1]), format!("  {:<22} \u{00d7}1 ((whole file))", "R-CRLF"));
}
