use agm_cli::commands::lint::{count_populated_fields, count_set_fields, lint_quality_checks, LintCode, LintNode, PopulatedFields};

fn first_flags(k: usize) -> PopulatedFields {
    let mut f = PopulatedFields::default();
    for i in 0..k {
        match i {
            0 => f.priority = true,
            1 => f.stability = true,
            2 => f.confidence = true,
            3 => f.status = true,
            4 => f.depends = true,
            5 => f.related_to = true,
            6 => f.replaces = true,
            7 => f.conflicts = true,
            8 => f.see_also = true,
            9 => f.items = true,
            10 => f.steps = true,
            11 => f.fields = true,
            12 => f.input = true,
            13 => f.output = true,
            14 => f.detail = true,
            15 => f.rationale = true,
            16 => f.tradeoffs = true,
            17 => f.resolution = true,
            18 => f.examples = true,
            19 => f.notes = true,
            20 => f.code = true,
            21 => f.code_blocks = true,
            22 => f.verify = true,
            23 => f.agent_context = true,
            24 => f.target = true,
            25 => f.execution_status = true,
            26 => f.executed_by = true,
            27 => f.executed_at = true,
            28 => f.execution_log = true,
            29 => f.retry_count = true,
            30 => f.parallel_groups = true,
            31 => f.memory = true,
            32 => f.scope = true,
            33 => f.applies_when = true,
            34 => f.valid_from = true,
            35 => f.valid_until = true,
            36 => f.tags = true,
            37 => f.aliases = true,
            38 => f.keywords = true,
            _ => panic!("only 39 optional fields"),
        }
    }
    f
}

fn node(id: &str, summary: &str, flags: usize, extra: usize) -> LintNode {
    LintNode { id: id.to_owned(), summary: summary.to_owned(), start_line: 7, optional_fields: first_flags(flags), extra_fields: extra }
}

#[test]
fn test_count_populated_fields_counts_flags_and_extras() {
    assert_eq!(count_populated_fields(&node("a", "s", 0, 0)), 0);
    assert_eq!(count_populated_fields(&node("a", "s", 5, 2)), 7);
    let mut n = node("a", "s", 0, 0);
    n.optional_fields.priority = true;
    n.optional_fields.confidence = true;
    assert_eq!(count_populated_fields(&n), 2);
    n.optional_fields.keywords = true;
    n.extra_fields = 1;
    assert_eq!(count_populated_fields(&n), 4);
}

#[test]
fn test_count_set_fields_all_and_none() {
    assert_eq!(count_set_fields(&PopulatedFields::default()), 0);
    assert_eq!(count_set_fields(&first_flags(39)), 39);
    assert_eq!(count_set_fields(&first_flags(17)), 17);
}

#[test]
fn test_lint_long_summary_between_100_and_200_bytes() {
    let nodes = vec![
        node("short", &"x".repeat(100), 0, 0),
        node("long", &"x".repeat(101), 0, 0),
        node("huge", &"x".repeat(201), 0, 0),
    ];
    let diags = lint_quality_checks(&nodes, "f.agm");
    assert_eq!(diags.len(), 1);
    assert_eq!(diags[0].code, LintCode::L001);
    assert_eq!(diags[0].message, "Summary of node `long` is 101 chars; consider shortening (> 100 chars)");
    assert_eq!(diags[0].file, "f.agm");
    assert_eq!(diags[0].line, 7);
    assert_eq!(diags[0].node_id, "long");
}

#[test]
fn test_lint_repeated_summary_reports_first_owner() {
    let nodes = vec![node("a", "same", 0, 0), node("b", "other", 0, 0), node("c", "same", 0, 0), node("d", "same", 0, 0)];
    let diags = lint_quality_checks(&nodes, "f.agm");
    let msgs: Vec<&str> = diags.iter().map(|d| d.message.as_str()).collect();
    assert_eq!(msgs, vec!["Nodes `a` and `c` have identical summaries", "Nodes `a` and `d` have identical summaries"]);
    assert!(diags.iter().all(|d| d.code == LintCode::L002));
}

#[test]
fn test_lint_crowded_node_and_report_order() {
    let nodes = vec![node("big", "same", 16, 0), node("ok", "same", 15, 0), node("mid", &"y".repeat(150), 10, 6)];
    let diags = lint_quality_checks(&nodes, "f.agm");
    let codes: Vec<LintCode> = diags.iter().map(|d| d.code).collect();
    assert_eq!(codes, vec![LintCode::L001, LintCode::L002, LintCode::L003, LintCode::L003]);
    assert_eq!(diags[2].message, "Node `big` has 16 populated fields; consider splitting into smaller nodes");
    assert_eq!(diags[3].node_id, "mid");
    assert_eq!(LintCode::L003.as_str(), "L003");
}

#[test]
fn test_lint_summary_length_counts_bytes() {
    // 51 two-byte characters: 102 bytes
    let nodes = vec![node("u", &"é".repeat(51), 0, 0)];
    let diags = lint_quality_checks(&nodes, "f.agm");
    assert_eq!(diags.len(), 1);
    assert!(diags[0].message.contains("is 102 chars"));
}
