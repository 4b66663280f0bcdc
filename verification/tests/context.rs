use agm_cli::runtime::context::{
    apply_file_range, assemble_prompt, estimate_tokens, estimate_total_tokens, extract_brace_block,
    extract_function, extract_js_function, extract_lines, extract_python_function, extract_rust_function,
    fill_sections, finish_context, load_memory_topics, plan_default_context, plan_explicit_context,
    read_error_comment, strip_markdown_header, truncate_to_budget, ContextSection, ContextSource, SectionPlan,
};
use agm_cli::runtime::graph::DepGraph;
use agm_cli::runtime::memory::MemoryRuntime;
use agm_cli::runtime::model::{AgentContext, AgmFile, FileRange, Header, LoadFile, LoadMode, Node};

fn node(id: &str, deps: Option<Vec<&str>>) -> Node {
    Node {
        id: id.to_owned(),
        summary: format!("test node {id}"),
        depends: deps.map(|d| d.into_iter().map(str::to_owned).collect()),
        agent_context: None,
        verify: None,
        code: None,
        code_blocks: None,
        memory: None,
    }
}

fn file(nodes: Vec<Node>) -> AgmFile {
    AgmFile { header: Header { package: "test.pkg".to_owned(), version: "0.1.0".to_owned() }, nodes }
}

fn section(name: &str, content: String) -> ContextSection {
    ContextSection { name: name.to_owned(), content, source: ContextSource::SystemHint }
}

#[test]
fn test_token_estimate_is_chars_over_4() {
    let text = "a".repeat(400);
    assert_eq!(estimate_tokens(&text), 100);
}

#[test]
fn test_strip_markdown_header_removes_h1() {
    let input = "# My Package v1.0\n\n## Node: foo\n\nBody text".to_owned();
    let stripped = strip_markdown_header(input);
    assert!(!stripped.starts_with("# My Package"));
    assert!(stripped.contains("## Node: foo"));
}

#[test]
fn test_strip_markdown_header_passthrough_when_no_h1() {
    let input = "## Node: foo\n\nBody".to_owned();
    let stripped = strip_markdown_header(input);
    assert!(stripped.starts_with("## Node:"));
}

#[test]
fn test_strip_markdown_header_exact_result() {
    assert_eq!(strip_markdown_header("# P v1\n\n\n  ## Node: a\nx\n".to_owned()), "## Node: a\nx");
    assert_eq!(strip_markdown_header(String::new()), "");
}

#[test]
fn test_extract_lines_basic() {
    let content = "line1\nline2\nline3\nline4";
    assert_eq!(extract_lines(content, 2, 3), "line2\nline3");
}

#[test]
fn test_extract_lines_out_of_range() {
    let content = "line1\nline2";
    assert!(extract_lines(content, 5, 10).is_empty());
}

#[test]
fn test_extract_lines_clamps_and_strips_cr() {
    assert_eq!(extract_lines("a\r\nb\r\nc", 0, 2), "a\nb");
    assert_eq!(extract_lines("a\nb\nc\n", 2, 99), "b\nc");
}

#[test]
fn test_extract_rust_function_found() {
    let content = "fn foo(x: i32) -> i32 {\n    x + 1\n}\n\nfn bar() {}";
    let result = extract_rust_function(content, "foo");
    assert!(result.contains("fn foo"));
    assert!(result.contains("x + 1"));
    assert!(!result.contains("fn bar"));
}

#[test]
fn test_extract_rust_function_not_found() {
    let content = "fn bar() {}";
    let result = extract_rust_function(content, "missing");
    assert!(result.contains("not found"));
    assert_eq!(result, "<!-- function 'missing' not found -->");
}

#[test]
fn test_extract_python_function_found() {
    let content = "def foo(x):\n    return x + 1\n\ndef bar():\n    pass\n";
    let result = extract_python_function(content, "foo");
    assert!(result.contains("def foo"));
    assert!(result.contains("return x + 1"));
    assert!(!result.contains("def bar"));
}

#[test]
fn test_extract_brace_block_nested() {
    let content = "fn foo() {\n    if true {\n        bar();\n    }\n}\nfn baz() {}";
    let result = extract_brace_block(content, "fn foo(");
    assert!(result.is_some());
    let s = result.unwrap();
    assert!(s.contains("if true"));
    assert!(!s.contains("fn baz"));
}

#[test]
fn test_extract_brace_block_starts_at_line_start_and_unclosed() {
    assert_eq!(extract_brace_block("x\n  pub fn f() { a }", "fn f(").unwrap(), "  pub fn f() { a }");
    assert_eq!(extract_brace_block("fn f() { open", "fn f(").unwrap(), "fn f() ");
    assert_eq!(extract_brace_block("fn f()", "fn f("), None);
    assert_eq!(extract_brace_block("fn g() {}", "fn f("), None);
}

#[test]
fn test_extract_js_function_forms() {
    let content = "const add = (a, b) => {\n  return a + b;\n};\nfunction sub(a) { return a; }";
    assert_eq!(extract_js_function(content, "sub"), "function sub(a) { return a; }");
    assert_eq!(extract_js_function(content, "add"), "const add = (a, b) => {\n  return a + b;\n}");
    assert_eq!(extract_js_function(content, "nope"), "<!-- function 'nope' not found -->");
}

#[test]
fn test_extract_function_dispatches_on_extension() {
    let py = "def foo():\n    return 1\n";
    assert_eq!(extract_function(py, "foo", "py"), "def foo():\n    return 1");
    let rs = "fn foo() { 1 }";
    assert_eq!(extract_function(rs, "foo", "rs"), "fn foo() { 1 }");
    assert_eq!(extract_function("foo() { 2 }", "foo", "c"), "foo() { 2 }");
}

#[test]
fn test_load_file_content_lines() {
    assert_eq!(apply_file_range("a\nb\nc\nd".to_owned(), &FileRange::Lines(2, 3), "txt"), "b\nc");
    assert_eq!(apply_file_range("hello\nworld".to_owned(), &FileRange::Full, "txt"), "hello\nworld");
}

#[test]
fn test_load_file_content_missing_file() {
    let result = read_error_comment("/nonexistent/file.txt", "No such file or directory (os error 2)");
    assert!(result.contains("could not read"));
    assert_eq!(result, "<!-- could not read /nonexistent/file.txt: No such file or directory (os error 2) -->");
}

#[test]
fn test_load_memory_topics_empty() {
    let memory = MemoryRuntime::new("test.agm.mem", "global.mem", "test.pkg");
    let sections = load_memory_topics(&vec!["nonexistent.topic".to_owned()], &memory);
    assert!(sections.is_empty());
}

#[test]
fn test_list_topic_empty_when_no_entries() {
    let memory = MemoryRuntime::new("test.agm.mem", "global.mem", "test.pkg");
    assert!(memory.list_topic("my.topic").is_empty());
}

#[test]
fn test_truncate_to_budget_removes_low_priority() {
    let sections = vec![
        section("s1", "a".repeat(100)),
        section("s2", "b".repeat(100)),
        section("s3", "c".repeat(400)),
    ];
    let result = truncate_to_budget(sections, 50);
    assert_eq!(result.len(), 2);
    assert_eq!(result[0].name, "s1");
    assert_eq!(result[1].name, "s2");
}

#[test]
fn test_truncate_to_budget_preserves_when_fits() {
    let sections = vec![section("s1", "a".repeat(40))];
    assert_eq!(truncate_to_budget(sections, 10000).len(), 1);
}

#[test]
fn test_truncate_to_budget_keeps_one_section() {
    let sections = vec![section("s1", "a".repeat(400)), section("s2", "b".repeat(400))];
    let result = truncate_to_budget(sections, 0);
    assert_eq!(result.len(), 1);
    assert_eq!(result[0].name, "s1");
}

#[test]
fn test_assemble_prompt_system_hint_not_wrapped() {
    let sections = vec![section("system_hint", "You are a Rust expert.".to_owned())];
    assert_eq!(assemble_prompt(&sections), "You are a Rust expert.");
}

#[test]
fn test_assemble_prompt_file_wrapped_in_code_block() {
    let sections = vec![ContextSection {
        name: "file:src/main.rs".to_owned(),
        content: "fn main() {}".to_owned(),
        source: ContextSource::File { path: "src/main.rs".to_owned() },
    }];
    let prompt = assemble_prompt(&sections);
    assert!(prompt.contains("## File: src/main.rs"));
    assert!(prompt.contains("```"));
    assert_eq!(prompt, "## File: src/main.rs\n\n```\nfn main() {}\n```");
}

#[test]
fn test_assemble_prompt_joins_with_blank_line() {
    let sections = vec![
        section("h", "hint".to_owned()),
        ContextSection {
            name: "node:a".to_owned(),
            content: "body".to_owned(),
            source: ContextSource::Node { id: "a".to_owned(), mode: LoadMode::Full },
        },
        ContextSection {
            name: "memory:t".to_owned(),
            content: "**k**: v".to_owned(),
            source: ContextSource::Memory { topic: "t".to_owned() },
        },
    ];
    assert_eq!(assemble_prompt(&sections), "hint\n\n## Node: a\n\nbody\n\n## Memory: t\n\n**k**: v");
}

#[test]
fn test_estimate_total_tokens() {
    let sections = vec![section("a", "a".repeat(200)), section("b", "b".repeat(200))];
    assert_eq!(estimate_total_tokens(&sections), 100);
}

#[test]
fn test_build_context_default_with_deps() {
    let dep = node("dep.node", None);
    let target = node("a.node", Some(vec!["dep.node", "missing.node"]));
    let f = file(vec![dep, node("a.node", Some(vec!["dep.node", "missing.node"]))]);
    let plan = plan_default_context(&target, &f);
    assert_eq!(plan.len(), 2);
    assert!(matches!(&plan[0], SectionPlan::Node { name, id, mode: LoadMode::Full } if name == "node:a.node" && id == "a.node"));
    assert!(matches!(&plan[1], SectionPlan::Node { name, mode: LoadMode::Operational, .. } if name == "dep:dep.node"));
    let fetched = vec!["# pkg v1\n\n## Node: a.node\nA".to_owned(), "## Node: dep.node\nD".to_owned()];
    let sections = fill_sections(&plan, &fetched);
    let ctx = finish_context(sections, None);
    assert!(ctx.prompt.contains("a.node"));
    assert!(ctx.prompt.contains("dep.node"));
    assert_eq!(ctx.sections.len(), 2);
    assert_eq!(ctx.token_estimate, ctx.prompt.len() / 4);
}

#[test]
fn test_build_context_default_no_deps() {
    let target = node("a.node", None);
    let f = file(vec![node("a.node", None)]);
    let plan = plan_default_context(&target, &f);
    assert_eq!(plan.len(), 1);
}

#[test]
fn test_explicit_context_system_hint_is_first() {
    let mut target = node("a.node", Some(vec!["c", "b"]));
    target.agent_context = Some(AgentContext {
        load_nodes: Some(vec!["c".to_owned()]),
        load_files: Some(vec![LoadFile { path: "src/x.rs".to_owned(), range: FileRange::Full }]),
        system_hint: Some("SYSTEM: be precise.".to_owned()),
        max_tokens: None,
        load_memory: None,
    });
    let f = file(vec![node("a.node", Some(vec!["c", "b"])), node("c", Some(vec!["d"])), node("b", None), node("d", None)]);
    let graph = DepGraph::build(&f);
    let memory = MemoryRuntime::new("p.mem", "g.mem", "test.pkg");
    let ctx = target.agent_context.as_ref().unwrap();
    let plan = plan_explicit_context(&target, ctx, &f, &graph, &memory);
    let names: Vec<String> = plan
        .iter()
        .map(|p| match p {
            SectionPlan::SystemHint(_) => "system_hint".to_owned(),
            SectionPlan::Node { name, .. } => name.clone(),
            SectionPlan::File { path, .. } => format!("file:{path}"),
            SectionPlan::Memory { topic, .. } => format!("memory:{topic}"),
        })
        .collect();
    assert_eq!(names, vec!["system_hint", "node:a.node", "load_node:c", "dep:b", "dep:d", "file:src/x.rs"]);
    let fetched = vec![String::new(), "A".to_owned(), "C".to_owned(), "B".to_owned(), "D".to_owned(), "X".to_owned()];
    let built = finish_context(fill_sections(&plan, &fetched), None);
    assert!(built.prompt.starts_with("SYSTEM: be precise."));
}

#[test]
fn test_explicit_context_max_tokens_truncates() {
    let sections = vec![section("node:a", "x".repeat(40)), section("dep:b", "y".repeat(2000))];
    let built = finish_context(sections, Some(10));
    assert_eq!(built.sections.len(), 1);
    assert!(!built.sections.is_empty());
}
