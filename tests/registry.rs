use mdcat::registry::{
    check_owner, lock_file_for_root, owned_by, queue_entry, queue_file_for_pid, queued_files,
    record_owner, record_text, OwnerCheck,
};
use mdcat::routing::OpenAction;
use mdcat::store::Registry;
use std::collections::hash_map::DefaultHasher;
use std::hash::{Hash, Hasher};

#[test]
fn last_registration_wins() {
    let mut reg = Registry::new();
    reg.register_root("/repo", 100);
    reg.register_root("/repo", 200);
    let live = vec![100, 200];
    assert_eq!(reg.find_owner("/repo", 1, &live), Some(200));
    // the second owner is the one record: it can remove it, the first cannot
    reg.unregister_root("/repo", 100);
    assert_eq!(reg.find_owner("/repo", 1, &live), Some(200));
    reg.unregister_root("/repo", 200);
    assert_eq!(reg.find_owner("/repo", 1, &live), None);
}

#[test]
fn only_owner_unregisters() {
    let mut reg = Registry::new();
    reg.register_root("/repo", 100);
    reg.unregister_root("/repo", 200);
    assert_eq!(reg.find_owner("/repo", 1, &vec![100]), Some(100));
}

#[test]
fn stale_owner_reclaimed() {
    let mut reg = Registry::new();
    reg.register_root("/repo", 100);
    let live = vec![300];
    assert_eq!(reg.find_owner("/repo", 1, &live), None);
    // the stale record is gone: even if pid 100 came back it is not named
    assert_eq!(reg.find_owner("/repo", 1, &vec![100, 300]), None);
    reg.register_root("/repo", 300);
    assert_eq!(reg.find_owner("/repo", 1, &live), Some(300));
}

#[test]
fn own_record_is_no_outside_owner() {
    let mut reg = Registry::new();
    reg.register_root("/repo", 7);
    assert_eq!(reg.find_owner("/repo", 7, &vec![7]), None);
    // not stale: another process still finds it while 7 lives
    assert_eq!(reg.find_owner("/repo", 8, &vec![7]), Some(7));
    // once 7 is gone its record is reclaimed, whoever asks
    assert_eq!(reg.find_owner("/repo", 7, &vec![]), None);
    assert_eq!(reg.find_owner("/repo", 8, &vec![7]), None);
}

#[test]
fn roots_are_kept_apart() {
    let mut reg = Registry::new();
    reg.register_root("/a", 1);
    reg.register_root("/b", 2);
    let live = vec![1, 2];
    assert_eq!(reg.find_owner("/a", 9, &live), Some(1));
    assert_eq!(reg.find_owner("/b", 9, &live), Some(2));
    assert_eq!(reg.find_owner("/c", 9, &live), None);
}

#[test]
fn queue_drains_once_in_order() {
    let mut reg = Registry::new();
    assert!(reg.queue_file_for_instance("a.md", 42));
    assert!(reg.queue_file_for_instance("b.md", 42));
    assert!(reg.queue_file_for_instance("c.md", 43));
    assert_eq!(reg.take_queued_files(42), vec!["a.md".to_string(), "b.md".to_string()]);
    assert_eq!(reg.take_queued_files(42), Vec::<String>::new());
    assert_eq!(reg.take_queued_files(43), vec!["c.md".to_string()]);
}

#[test]
fn empty_queue_drains_empty() {
    let mut reg = Registry::new();
    assert!(reg.take_queued_files(5).is_empty());
}

#[test]
fn owner_check_cases() {
    assert_eq!(check_owner(5, 5, true), OwnerCheck::Own);
    assert_eq!(check_owner(5, 5, false), OwnerCheck::Stale);
    assert_eq!(check_owner(5, 6, true), OwnerCheck::Owner(5));
    assert_eq!(check_owner(5, 6, false), OwnerCheck::Stale);
    assert_eq!(OwnerCheck::Owner(5).owner(), Some(5));
    assert_eq!(OwnerCheck::Stale.owner(), None);
    assert!(OwnerCheck::Stale.is_stale());
    assert!(!OwnerCheck::Own.is_stale());
}

#[test]
fn record_text_layout() {
    assert_eq!(record_text(4242, "/home/u/repo"), "4242\n/home/u/repo\n");
    assert_eq!(record_text(0, ""), "0\n\n");
}

#[test]
fn record_owner_reads_first_line() {
    assert_eq!(record_owner("4242\n/home/u/repo\n"), Some(4242));
    assert_eq!(record_owner("4242\r\n/x\r\n"), Some(4242));
    assert_eq!(record_owner("+17"), Some(17));
    assert_eq!(record_owner("4294967295\n"), Some(u32::MAX));
    assert_eq!(record_owner("4294967296\n"), None);
    assert_eq!(record_owner("-1\n"), None);
    assert_eq!(record_owner("12a\n"), None);
    assert_eq!(record_owner("\n12\n"), None);
    assert_eq!(record_owner("+\n"), None);
    assert_eq!(record_owner(""), None);
}

#[test]
fn record_round_trip() {
    let text = record_text(31337, "/srv/repo");
    assert_eq!(record_owner(&text), Some(31337));
    assert!(owned_by(&text, 31337));
    assert!(!owned_by(&text, 31338));
    assert!(!owned_by("garbage", 0));
}

#[test]
fn queue_file_entries() {
    assert_eq!(queue_entry("/a/b.md"), "/a/b.md\n");
    let text = format!("{}{}", queue_entry("a.md"), queue_entry("b.md"));
    assert_eq!(queued_files(&text), vec!["a.md".to_string(), "b.md".to_string()]);
    assert_eq!(queued_files("a.md\n\n\r\nb.md"), vec!["a.md".to_string(), "b.md".to_string()]);
    assert!(queued_files("").is_empty());
    assert!(queued_files("\n\n").is_empty());
}

#[test]
fn file_names() {
    assert_eq!(queue_file_for_pid(42), "42.queue");
    assert_eq!(queue_file_for_pid(0), "0.queue");
    let mut h = DefaultHasher::new();
    "/repo".hash(&mut h);
    assert_eq!(lock_file_for_root("/repo"), format!("{:x}.lock", h.finish()));
    assert_ne!(lock_file_for_root("/repo"), lock_file_for_root("/repo-b"));
    assert_eq!(lock_file_for_root("/repo"), lock_file_for_root("/repo"));
}

#[test]
fn request_same_root_delivers_here() {
    let mut reg = Registry::new();
    reg.register_root("/repo", 999);
    let a = reg.handle_open_request("/repo/b.md".to_string(), &Some("/repo".to_string()), &Some("/repo".to_string()), 1, &vec![999]);
    assert!(matches!(a, OpenAction::DeliverLocally(ref p) if p == "/repo/b.md"));
    assert!(reg.take_queued_files(999).is_empty());
}

#[test]
fn request_unowned_project_spawns() {
    let mut reg = Registry::new();
    let a = reg.handle_open_request("/repo-B/x.md".to_string(), &Some("/repo-B".to_string()), &Some("/repo-A".to_string()), 1, &vec![]);
    assert!(matches!(a, OpenAction::SpawnNew(ref p) if p == "/repo-B/x.md"));
    assert!(reg.take_queued_files(1).is_empty());
}

#[test]
fn request_dead_owner_spawns_and_reclaims() {
    let mut reg = Registry::new();
    reg.register_root("/repo-B", 999);
    let a = reg.handle_open_request("/repo-B/x.md".to_string(), &Some("/repo-B".to_string()), &Some("/repo-A".to_string()), 1, &vec![]);
    assert!(matches!(a, OpenAction::SpawnNew(_)));
    assert!(reg.take_queued_files(999).is_empty());
    assert_eq!(reg.find_owner("/repo-B", 1, &vec![999]), None);
}

#[test]
fn request_live_owner_queues() {
    let mut reg = Registry::new();
    reg.register_root("/repo-B", 999);
    let a = reg.handle_open_request("/repo-B/x.md".to_string(), &Some("/repo-B".to_string()), &Some("/repo-A".to_string()), 1, &vec![999]);
    assert!(matches!(a, OpenAction::QueueToOwner { pid: 999, ref path } if path == "/repo-B/x.md"));
    assert_eq!(reg.take_queued_files(999), vec!["/repo-B/x.md".to_string()]);
}

#[test]
fn request_rootless_in_rootless_process_delivers_here() {
    let mut reg = Registry::new();
    let a = reg.handle_open_request("/tmp/other.md".to_string(), &None, &None, 1, &vec![]);
    assert!(matches!(a, OpenAction::DeliverLocally(ref p) if p == "/tmp/other.md"));
}
