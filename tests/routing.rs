use mdcat::file_tree::{get_context, resolve_root};
use mdcat::routing::{
    activation_after_queue, get_opened_file, launch_file, plan_open, route_open, same_root, CurrentRoot,
    OpenAction, OpenPlan, OpenedFile,
};

fn s(x: &str) -> Option<String> {
    Some(x.to_string())
}

#[test]
fn same_root_reuses_window() {
    match route_open("/repo/b.md".to_string(), &s("/repo"), &s("/repo"), Some(999)) {
        OpenAction::DeliverLocally(p) => assert_eq!(p, "/repo/b.md"),
        _ => panic!("expected local delivery"),
    }
}

#[test]
fn new_project_without_owner_spawns() {
    assert_eq!(plan_open(&s("/repo-B"), &s("/repo-A")), OpenPlan::AskOwner);
    match route_open("/repo-B/x.md".to_string(), &s("/repo-B"), &s("/repo-A"), None) {
        OpenAction::SpawnNew(p) => assert_eq!(p, "/repo-B/x.md"),
        _ => panic!("expected a new process"),
    }
}

#[test]
fn new_project_with_live_owner_queues() {
    match route_open("/repo-B/x.md".to_string(), &s("/repo-B"), &s("/repo-A"), Some(999)) {
        OpenAction::QueueToOwner { pid, path } => {
            assert_eq!(pid, 999);
            assert_eq!(path, "/repo-B/x.md");
        }
        _ => panic!("expected queueing"),
    }
    assert_eq!(activation_after_queue(true, 999), Some(999));
    assert_eq!(activation_after_queue(false, 999), None);
}

#[test]
fn rootless_document_reuses_rootless_window() {
    match route_open("/tmp/notes.md".to_string(), &None, &None, Some(5)) {
        OpenAction::DeliverLocally(p) => assert_eq!(p, "/tmp/notes.md"),
        _ => panic!("expected local delivery"),
    }
}

#[test]
fn fresh_process_takes_anything() {
    assert_eq!(plan_open(&s("/repo"), &None), OpenPlan::Local);
}

#[test]
fn rootless_document_in_project_window_spawns() {
    assert_eq!(plan_open(&None, &s("/repo")), OpenPlan::Spawn);
    match route_open("/tmp/n.md".to_string(), &None, &s("/repo"), Some(3)) {
        OpenAction::SpawnNew(p) => assert_eq!(p, "/tmp/n.md"),
        _ => panic!("expected a new process"),
    }
}

#[test]
fn same_root_cases() {
    assert!(same_root(&s("/a"), &s("/a")));
    assert!(!same_root(&s("/a"), &s("/b")));
    assert!(same_root(&None, &None));
    assert!(!same_root(&s("/a"), &None));
    assert!(!same_root(&None, &s("/a")));
}

#[test]
fn pending_file_taken_once() {
    let mut st = OpenedFile::new();
    st.set("/a.md".to_string());
    assert_eq!(get_opened_file(&mut st, vec!["/q.md".to_string()]), s("/a.md"));
    assert_eq!(get_opened_file(&mut st, vec!["/q.md".to_string(), "/r.md".to_string()]), s("/q.md"));
    assert_eq!(get_opened_file(&mut st, vec![]), None);
    assert_eq!(st.take(), None);
}

#[test]
fn current_root_transfer() {
    let mut cur = CurrentRoot::new();
    assert_eq!(cur.get_current_root(), None);
    assert_eq!(cur.set_current_root("/a".to_string()), None);
    assert_eq!(cur.set_current_root("/b".to_string()), s("/a"));
    assert_eq!(cur.get_current_root(), s("/b"));
}

#[test]
fn resolve_root_cases() {
    assert_eq!(resolve_root("/w/repo/doc.md", s("/w/repo"), true), "/w/repo");
    assert_eq!(resolve_root("/w/notes/doc.md", None, true), "/w/notes");
    assert_eq!(resolve_root("/w/notes", None, false), "/w/notes");
    assert_eq!(resolve_root("/", None, true), "/");
    let ctx = get_context("/w/notes/doc.md", None, true);
    assert_eq!(ctx.root, "/w/notes");
    assert!(!ctx.is_git);
    assert!(get_context("/w/r/a.md", s("/w/r"), true).is_git);
}

#[test]
fn launch_file_choice() {
    let args = vec!["--flag".to_string(), "/a.md".to_string(), "/b.md".to_string()];
    assert_eq!(launch_file(s("/cli.md"), &args, &vec![true, true, true]), s("/cli.md"));
    assert_eq!(launch_file(s(""), &args, &vec![true, true, true]), s("/a.md"));
    assert_eq!(launch_file(None, &args, &vec![true, false, true]), s("/b.md"));
    assert_eq!(launch_file(None, &args, &vec![true, false, false]), None);
    assert_eq!(launch_file(None, &vec![], &vec![]), None);
}
