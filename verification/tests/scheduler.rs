use agm_cli::runtime::scheduler::{
    build_dry_run_report, effective_concurrency, group_gate, next_batch, pick_topo_first, select_candidates,
    should_stop, ParallelGroup, RunConfig, Strategy,
};
use agm_cli::runtime::group_order::{resolve_group_order, GroupOrderError};
use agm_cli::runtime::state::ExecutionStatus;

fn ids(v: &[&str]) -> Vec<String> {
    v.iter().map(|s| s.to_string()).collect()
}

fn group(name: &str, requires: Option<Vec<&str>>) -> ParallelGroup {
    ParallelGroup {
        group: name.to_owned(),
        nodes: vec![],
        strategy: Strategy::Sequential,
        requires: requires.map(|r| ids(&r)),
        max_concurrency: None,
    }
}

#[test]
fn test_run_config_default_serial() {
    let config = RunConfig::default();
    assert_eq!(config.max_concurrency, 1);
}

#[test]
fn test_run_config_default_timeout_300s() {
    let config = RunConfig::default();
    assert_eq!(config.timeout_secs, 300);
    assert!(!config.dry_run);
    assert_eq!(config.working_dir, ".");
}

#[test]
fn test_pick_topo_first_follows_topological_order() {
    let topo = ids(&["c", "b", "a"]);
    assert_eq!(pick_topo_first(&ids(&["a", "b"]), &topo), "b");
    assert_eq!(pick_topo_first(&ids(&["z"]), &topo), "z");
}

#[test]
fn test_select_candidates_restricts_to_execution_set() {
    let ready = ids(&["a", "b", "c"]);
    assert_eq!(select_candidates(&ready, &None), ready);
    assert_eq!(select_candidates(&ready, &Some(ids(&["c", "a"]))), ids(&["a", "c"]));
}

#[test]
fn test_next_batch_serial_or_candidate_prefix() {
    let topo = ids(&["a", "b", "c", "d"]);
    assert_eq!(next_batch(&ids(&["d", "b", "a"]), &topo, 1), ids(&["a"]));
    assert_eq!(next_batch(&ids(&["d", "b", "a"]), &topo, 2), ids(&["d", "b"]));
    assert_eq!(next_batch(&ids(&["d"]), &topo, 4), ids(&["d"]));
}

#[test]
fn test_dry_run_report_lists_all_nodes() {
    let report = build_dry_run_report(&ids(&["A", "B", "C"]), &None);
    assert_eq!(report.total_nodes, 3);
    assert_eq!(report.node_results.len(), 3);
    for result in &report.node_results {
        assert_eq!(result.status, ExecutionStatus::Pending);
        assert_eq!(result.agent, "(dry-run)");
    }
    assert_eq!(report.executed, 0);
}

#[test]
fn test_dry_run_report_respects_execution_set() {
    let report = build_dry_run_report(&ids(&["A", "B", "C"]), &Some(ids(&["C", "A"])));
    let listed: Vec<&str> = report.node_results.iter().map(|r| r.node_id.as_str()).collect();
    assert_eq!(listed, vec!["A", "C"]);
}

#[test]
fn test_should_stop_only_when_fail_fast() {
    let mut config = RunConfig::default();
    assert!(!should_stop(true, &config));
    config.fail_fast = true;
    assert!(should_stop(true, &config));
    assert!(!should_stop(false, &config));
}

#[test]
fn test_group_gate_names_first_unmet_requirement() {
    let g = group("C", Some(vec!["A", "B"]));
    assert!(group_gate(&g, &ids(&["A", "B"])).is_ok());
    assert_eq!(group_gate(&g, &ids(&["A"])).unwrap_err(), "Group 'C' requires 'B' which is not completed");
}

#[test]
fn test_effective_concurrency() {
    let mut g = group("P", None);
    assert_eq!(effective_concurrency(&g, 8), 1);
    g.strategy = Strategy::Parallel;
    assert_eq!(effective_concurrency(&g, 8), 8);
    g.max_concurrency = Some(3);
    assert_eq!(effective_concurrency(&g, 8), 3);
}

#[test]
fn test_resolve_group_order_linear() {
    let groups = vec![group("A", None), group("B", Some(vec!["A"])), group("C", Some(vec!["B"]))];
    let order = resolve_group_order(&groups).unwrap();
    assert_eq!(order, vec!["A", "B", "C"]);
}

#[test]
fn test_resolve_group_order_cycle_returns_error() {
    let groups = vec![group("A", Some(vec!["B"])), group("B", Some(vec!["A"]))];
    let result = resolve_group_order(&groups);
    assert!(result.is_err());
    assert!(matches!(result, Err(GroupOrderError::Cycle)));
}

#[test]
fn test_resolve_group_order_sorts_ready_groups_by_name() {
    let groups = vec![
        group("z", None),
        group("m", Some(vec!["z"])),
        group("b", None),
        group("a", Some(vec!["z", "b"])),
    ];
    assert_eq!(resolve_group_order(&groups).unwrap(), vec!["b", "z", "a", "m"]);
}

#[test]
fn test_resolve_group_order_unknown_requirement() {
    let groups = vec![group("A", Some(vec!["A0"])), group("B", Some(vec!["nope"]))];
    match resolve_group_order(&groups) {
        Err(e) => assert_eq!(e.message(), "Group 'A' requires unknown group 'A0'"),
        Ok(_) => panic!("unknown requirement must fail"),
    }
}

#[test]
fn test_resolve_group_order_duplicate_names_and_self_requirement() {
    assert!(matches!(resolve_group_order(&vec![group("A", None), group("A", None)]), Err(GroupOrderError::Cycle)));
    assert!(matches!(resolve_group_order(&vec![group("A", Some(vec!["A"]))]), Err(GroupOrderError::Cycle)));
    assert_eq!(resolve_group_order(&vec![]).unwrap(), Vec::<String>::new());
    assert_eq!(
        GroupOrderError::Cycle.message(),
        "Cycle detected in group requires dependencies"
    );
}

#[test]
fn test_resolved_order_passes_every_gate() {
    let groups = vec![group("c", Some(vec!["a", "b"])), group("b", Some(vec!["a"])), group("a", None)];
    let order = resolve_group_order(&groups).unwrap();
    let mut completed: Vec<String> = Vec::new();
    for name in &order {
        let g = groups.iter().find(|g| &g.group == name).unwrap();
        assert!(group_gate(g, &completed).is_ok());
        completed.push(name.clone());
    }
}

#[test]
fn test_resolve_group_order_takes_groups_as_they_are_freed() {
    // `b` is freed only when `a` is taken, after `c` was already queued.
    let groups = vec![group("c", None), group("b", Some(vec!["a"])), group("a", None)];
    assert_eq!(resolve_group_order(&groups).unwrap(), vec!["a", "c", "b"]);
}
