use mdcat::build_info::{bench_payload, format_build_date_local};
use mdcat::watch::{concerns_document, watch_target};
use mdcat::file_tree::{is_markdown_ext, skip_dir, sort_level, FileNode};
use mdcat::tree::assemble_tree;

fn node(name: &str, is_dir: bool) -> FileNode {
    FileNode {
        name: name.to_string(),
        path: format!("/r/{}", name),
        is_dir,
        children: if is_dir { Some(vec![]) } else { None },
    }
}

fn names(nodes: &[FileNode]) -> Vec<String> {
    nodes.iter().map(|n| n.name.clone()).collect()
}

#[test]
fn skipped_directories() {
    assert!(skip_dir(".git"));
    assert!(skip_dir(".hidden"));
    assert!(skip_dir("node_modules"));
    assert!(skip_dir("target"));
    assert!(!skip_dir("docs"));
    assert!(!skip_dir("targets"));
    assert!(!skip_dir(""));
}

#[test]
fn markdown_extensions() {
    assert!(is_markdown_ext("md"));
    assert!(is_markdown_ext("MD"));
    assert!(is_markdown_ext("markdown"));
    assert!(!is_markdown_ext("Md"));
    assert!(!is_markdown_ext("txt"));
    assert!(!is_markdown_ext(""));
}

#[test]
fn level_order_dirs_first_then_name_ignoring_case() {
    let sorted = sort_level(vec![
        node("b.md", false),
        node("Zeta", true),
        node("A.md", false),
        node("alpha", true),
        node("c.md", false),
    ]);
    assert_eq!(names(&sorted), vec!["alpha", "Zeta", "A.md", "b.md", "c.md"]);
    assert!(sorted[0].is_dir && sorted[1].is_dir && !sorted[2].is_dir);
}

#[test]
fn level_order_of_empty_and_single() {
    assert!(sort_level(vec![]).is_empty());
    assert_eq!(names(&sort_level(vec![node("x.md", false)])), vec!["x.md"]);
}

#[test]
fn level_order_prefix_first() {
    let sorted = sort_level(vec![node("ab.md", false), node("a.md", false), node("AB", true)]);
    assert_eq!(names(&sorted), vec!["AB", "a.md", "ab.md"]);
}

#[test]
fn build_date_unparsable_is_kept() {
    assert_eq!(format_build_date_local("unknown"), "unknown");
    assert_eq!(format_build_date_local("2026-02-09"), "2026-02-09");
    assert_eq!(format_build_date_local(""), "");
}

#[test]
fn build_date_is_reformatted() {
    let shown = format_build_date_local("2026-02-09T09:22:07Z");
    assert_ne!(shown, "2026-02-09T09:22:07Z");
    assert_eq!(shown.len(), "2026-02-09 09:22:07 +0000".len());
    assert!(shown.starts_with("2026-02-0"));
    assert_eq!(&shown[10..11], " ");
}

fn tree_names(nodes: &[FileNode]) -> String {
    let parts: Vec<String> = nodes
        .iter()
        .map(|n| match &n.children {
            Some(c) => format!("{}[{}]", n.name, tree_names(c)),
            None => n.name.clone(),
        })
        .collect();
    parts.join(",")
}

#[test]
fn tree_nests_and_orders() {
    let files: Vec<String> = vec![
        "/r/b.md".to_string(),
        "/r/docs/a.md".to_string(),
        "/r/docs/deep/c.md".to_string(),
        "/r/A.md".to_string(),
        "/r/Zeta/z.md".to_string(),
    ];
    let tree = assemble_tree("/r", &files);
    assert_eq!(tree_names(&tree), "docs[deep[c.md],a.md],Zeta[z.md],A.md,b.md");
    assert!(tree[0].is_dir);
    assert_eq!(tree[0].path, "/r/docs");
    let deep = &tree[0].children.as_ref().unwrap()[0];
    assert_eq!(deep.path, "/r/docs/deep");
    assert_eq!(deep.children.as_ref().unwrap()[0].path, "/r/docs/deep/c.md");
    assert_eq!(tree[2].path, "/r/A.md");
    assert!(tree[2].children.is_none());
}

#[test]
fn tree_of_nothing_is_empty() {
    assert!(assemble_tree("/r", &vec![]).is_empty());
}

#[test]
fn tree_directory_appears_once() {
    let files: Vec<String> = vec!["/r/d/x.md".to_string(), "/r/d/y.md".to_string()];
    let tree = assemble_tree("/r", &files);
    assert_eq!(tree_names(&tree), "d[x.md,y.md]");
}

#[test]
fn watch_target_cases() {
    let t = watch_target("/w/notes/a.md").ok().unwrap();
    assert_eq!(t.file_name, "a.md");
    assert_eq!(t.dir, "/w/notes");
    assert_eq!(watch_target("/").err(), Some("Invalid file path".to_string()));
    assert_eq!(watch_target("/w/..").err(), Some("Invalid file path".to_string()));
}

#[test]
fn change_concerns_document() {
    let w = "a.md".to_string();
    assert!(concerns_document(true, &Some("a.md".to_string()), &w));
    assert!(!concerns_document(false, &Some("a.md".to_string()), &w));
    assert!(!concerns_document(true, &Some("b.md".to_string()), &w));
    assert!(!concerns_document(true, &None, &w));
}

#[test]
fn bench_payload_text() {
    assert_eq!(bench_payload(42, 1700000000123), "{\"pid\":42,\"ts_ms\":1700000000123}\n");
    assert_eq!(bench_payload(0, 0), "{\"pid\":0,\"ts_ms\":0}\n");
}
