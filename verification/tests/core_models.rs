use unicorn::config::{IpAddress, UnicornConfig};
use unicorn::git::repository::{commit_summary, first_line_of, CommitWalk};
use unicorn::metrics::{network_totals, DiskSnapshot};
use unicorn::models::{Repository, Timestamp};

#[test]
fn default_configuration() {
    let config = UnicornConfig::default();
    assert_eq!(config.server.host, IpAddress::V4(0, 0, 0, 0));
    assert_eq!(config.server.http_port, 3000);
    assert_eq!(config.server.data_dir, "./data");
    assert!(config.ssh.enabled);
    assert_eq!(config.ssh.port, 2222);
    assert_eq!(config.ssh.host_key_path, "./data/ssh/host_ed25519");
    assert_eq!(config.storage.repositories_dir, "./data/repositories");
    assert_eq!(config.ui.refresh_interval_ms, 1000);
    assert_eq!(config.ui.theme, "unicorn-dark");
    assert_eq!(config.logging.level, "info");
    assert_eq!(config.logging.file.as_deref(), Some("./data/logs/unicorn.log"));
}

#[test]
fn repository_slug_is_owner_slash_name() {
    let at = Timestamp { unix_seconds: 1_700_000_000, nanoseconds: 0 };
    let repo = Repository {
        id: 1,
        owner: "alice".to_string(),
        name: "web".to_string(),
        description: None,
        default_branch: "main".to_string(),
        is_private: false,
        is_bare: true,
        star_count: 3,
        created_at: at,
        updated_at: at,
    };
    assert_eq!(repo.slug(), "alice/web");
}

#[test]
fn first_line_matches_str_lines() {
    for text in ["", "fix bug", "fix bug\n", "fix bug\r\nbody", "title\nbody\n", "\n", "\r\n", "a\rb\nc", "tail\r", "\n\nx"] {
        assert_eq!(first_line_of(text), text.lines().next().map(str::to_owned), "{text:?}");
    }
}

#[test]
fn commit_summary_fallbacks() {
    let c = commit_summary("abc1234".to_string(), Some("Add feature\n\nDetails"), Some("Alice".to_string()));
    assert_eq!(c.short_id, "abc1234");
    assert_eq!(c.summary, "Add feature");
    assert_eq!(c.author_name, "Alice");
    let empty = commit_summary("def5678".to_string(), Some(""), None);
    assert_eq!(empty.summary, "(no commit message)");
    assert_eq!(empty.author_name, "unknown");
    let unreadable = commit_summary("0000000".to_string(), None, None);
    assert_eq!(unreadable.summary, "(no commit message)");
}

#[test]
fn commit_walk_stops_at_limit() {
    let mut walk = CommitWalk::new(2);
    let mut offered = 0;
    while walk.wants_more() && offered < 10 {
        walk.record(commit_summary(format!("{offered:07}"), Some("msg"), None));
        offered += 1;
    }
    let commits = walk.into_commits();
    assert_eq!(commits.len(), 2);
    assert_eq!(commits[1].short_id, "0000001");
    let none = CommitWalk::new(0);
    assert!(!none.wants_more());
}

#[test]
fn commit_walk_steps_stop_on_unreadable_commit_root_or_limit() {
    let summary = |id: &str| commit_summary(id.to_string(), Some("msg\n"), None);

    let mut unreadable = CommitWalk::new(5);
    assert!(unreadable.step(Some((summary("a"), true))));
    assert!(!unreadable.step(None));
    assert_eq!(unreadable.into_commits().len(), 1);

    let mut root = CommitWalk::new(5);
    assert!(root.step(Some((summary("a"), true))));
    assert!(!root.step(Some((summary("b"), false))));
    let commits = root.into_commits();
    assert_eq!(commits.len(), 2);
    assert_eq!(commits[1].short_id, "b");
    assert_eq!(commits[1].summary, "msg");

    let mut limited = CommitWalk::new(2);
    assert!(limited.step(Some((summary("a"), true))));
    assert!(!limited.step(Some((summary("b"), true))));
    assert!(!limited.wants_more());
    assert_eq!(limited.into_commits().len(), 2);
}

#[test]
fn disk_used_bytes_saturates() {
    let disk = DiskSnapshot { mount_point: "/".to_string(), total_bytes: 100, available_bytes: 30 };
    assert_eq!(disk.used_bytes(), 70);
    let odd = DiskSnapshot { mount_point: "/".to_string(), total_bytes: 10, available_bytes: 30 };
    assert_eq!(odd.used_bytes(), 0);
}

#[test]
fn network_totals_sum_interfaces() {
    assert_eq!(network_totals(&vec![]), Some((0, 0)));
    assert_eq!(network_totals(&vec![(10, 1), (5, 2), (0, 7)]), Some((15, 10)));
    assert_eq!(network_totals(&vec![(u64::MAX, 0), (1, 0)]), None);
    assert_eq!(network_totals(&vec![(0, u64::MAX), (0, 1)]), None);
}

#[test]
fn summaries_clone_field_for_field() {
    let commit = commit_summary("abc1234".to_string(), Some("first\nsecond"), Some("ada".to_string()));
    let copy = commit.clone();
    assert_eq!(copy.short_id, "abc1234");
    assert_eq!(copy.summary, "first");
    assert_eq!(copy.author_name, "ada");
}
