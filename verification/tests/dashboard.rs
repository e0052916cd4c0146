use unicorn::metrics::DiskSnapshot;
use unicorn::tui::app::{tab_title, tick_due, tick_interval_ms, History, InputEvent, Key, KeyEffect, Navigation, HISTORY_CAPACITY, TAB_COUNT};
use unicorn::tui::labels::{activity_slugs, disk_label, nav_item_label, repository_count_label, repository_entry_label, usage_label};
use unicorn::tui::theme::{Rgb, Theme};
use unicorn::git::discovery::DiscoveredRepository;

#[test]
fn new_navigation_starts_on_first_tab() {
    let nav = Navigation::new();
    assert_eq!(nav, Navigation { selected_tab: 0, nav_selected: 0, should_quit: false });
}

#[test]
fn tab_keys_wrap_around() {
    let mut nav = Navigation::new();
    assert_eq!(nav.on_key(Key::Left), KeyEffect::Nothing);
    assert_eq!(nav.selected_tab, 7);
    nav.on_key(Key::Right);
    assert_eq!(nav.selected_tab, 0);
    nav.on_key(Key::Char('l'));
    nav.on_key(Key::Tab);
    assert_eq!(nav.selected_tab, 2);
    nav.on_key(Key::Char('h'));
    nav.on_key(Key::BackTab);
    assert_eq!(nav.selected_tab, 0);
    for _ in 0..TAB_COUNT {
        nav.on_key(Key::Right);
    }
    assert_eq!(nav.selected_tab, 0);
}

#[test]
fn sidebar_keys_move_selection() {
    let mut nav = Navigation::new();
    nav.on_key(Key::Down);
    nav.on_key(Key::Char('j'));
    assert_eq!(nav.nav_selected, 2);
    nav.on_key(Key::Up);
    nav.on_key(Key::Char('k'));
    nav.on_key(Key::Char('k'));
    assert_eq!(nav.nav_selected, 7);
    assert_eq!(nav.selected_tab, 0);
}

#[test]
fn quit_keys_set_quit_and_it_stays() {
    let mut nav = Navigation::new();
    nav.on_key(Key::Char('q'));
    assert!(nav.should_quit);
    nav.on_key(Key::Right);
    assert!(nav.should_quit);
    let mut other = Navigation::new();
    other.on_key(Key::Esc);
    assert!(other.should_quit);
}

#[test]
fn r_asks_for_rescan_and_other_keys_do_nothing() {
    let mut nav = Navigation::new();
    assert_eq!(nav.on_key(Key::Char('r')), KeyEffect::RescanRepositories);
    assert_eq!(nav, Navigation::new());
    assert_eq!(nav.on_key(Key::Char('x')), KeyEffect::Nothing);
    assert_eq!(nav.on_key(Key::Other), KeyEffect::Nothing);
    assert_eq!(nav, Navigation::new());
}

#[test]
fn tab_titles_in_order() {
    let titles: Vec<&str> = (0..TAB_COUNT).map(tab_title).collect();
    assert_eq!(
        titles,
        vec!["Dashboard", "Repositories", "Users", "Organizations", "SSH Keys", "Packages", "Metrics", "Logs"]
    );
}

#[test]
fn history_keeps_the_latest_samples() {
    let mut history = History::default();
    for i in 0..(HISTORY_CAPACITY as u64 + 5) {
        history.push(i % 101, i * 1000);
    }
    assert_eq!(history.cpu.len(), HISTORY_CAPACITY);
    assert_eq!(history.network_rx.len(), HISTORY_CAPACITY);
    assert_eq!(history.cpu[0], 5);
    assert_eq!(*history.network_rx.last().unwrap(), (HISTORY_CAPACITY as u64 + 4) * 1000);
    assert_eq!(history.network_rx[0], 5000);
}

#[test]
fn history_below_capacity_keeps_everything() {
    let mut history = History::default();
    history.push(12, 300);
    history.push(50, 0);
    assert_eq!(history.cpu, vec![12, 50]);
    assert_eq!(history.network_rx, vec![300, 0]);
}

#[test]
fn tick_interval_has_a_floor() {
    assert_eq!(tick_interval_ms(1000), 1000);
    assert_eq!(tick_interval_ms(200), 200);
    assert_eq!(tick_interval_ms(50), 200);
    assert_eq!(tick_interval_ms(0), 200);
}

#[test]
fn default_theme_palette() {
    let theme = Theme::default();
    assert_eq!(theme.background, Rgb { r: 10, g: 10, b: 18 });
    assert_eq!(theme.brand, Rgb { r: 190, g: 120, b: 255 });
    assert_eq!(theme.info, Rgb { r: 90, g: 180, b: 240 });
    assert_eq!(theme.danger, Rgb { r: 240, g: 100, b: 110 });
}

#[test]
fn usage_and_disk_labels() {
    assert_eq!(usage_label(512, 1536), "512 B / 1.5 KiB");
    let disk = DiskSnapshot { mount_point: "/".to_string(), total_bytes: 2 * 1024 * 1024, available_bytes: 1024 * 1024 };
    assert_eq!(disk_label(&disk), "/  1 MiB / 2 MiB");
    let odd = DiskSnapshot { mount_point: "/mnt".to_string(), total_bytes: 10, available_bytes: 20 };
    assert_eq!(disk_label(&odd), "/mnt  0 B / 10 B");
}

#[test]
fn repository_list_labels() {
    let bare = DiscoveredRepository { path: "/r/a.git".to_string(), slug: "alice/a".to_string(), is_bare: true };
    let work = DiscoveredRepository { path: "/r/b".to_string(), slug: "bob/b".to_string(), is_bare: false };
    assert_eq!(repository_entry_label(&bare), "📁 alice/a  (bare)");
    assert_eq!(repository_entry_label(&work), "📁 bob/b  (worktree)");
    assert_eq!(repository_count_label(0), "Repositories 0  ");
    assert_eq!(repository_count_label(42), "Repositories 42  ");
}

#[test]
fn nav_items_are_indented_titles() {
    assert_eq!(nav_item_label(0), format!("  {}", tab_title(0)));
    assert!(nav_item_label(1).starts_with("  "));
}

#[test]
fn activity_chart_shows_the_first_seven_slugs() {
    let repos: Vec<DiscoveredRepository> = (0..9)
        .map(|i| DiscoveredRepository { path: format!("/r/{i}"), slug: format!("s{i}"), is_bare: false })
        .collect();
    let slugs = activity_slugs(&repos);
    assert_eq!(slugs, vec!["s0", "s1", "s2", "s3", "s4", "s5", "s6"]);
    let two: Vec<DiscoveredRepository> =
        (0..2).map(|i| DiscoveredRepository { path: format!("/r/{i}"), slug: format!("s{i}"), is_bare: false }).collect();
    assert_eq!(activity_slugs(&two), vec!["s0", "s1"]);
    assert!(activity_slugs(&Vec::new()).is_empty());
}

#[test]
fn only_key_presses_change_navigation() {
    let mut nav = Navigation::new();
    assert_eq!(nav.on_event(InputEvent::Key { key: Key::Right, pressed: false }), KeyEffect::Nothing);
    assert_eq!(nav, Navigation::new());
    assert_eq!(nav.on_event(InputEvent::Other), KeyEffect::Nothing);
    assert_eq!(nav, Navigation::new());
    assert_eq!(nav.on_event(InputEvent::Key { key: Key::Right, pressed: true }), KeyEffect::Nothing);
    assert_eq!(nav.selected_tab, 1);
    assert_eq!(nav.on_event(InputEvent::Key { key: Key::Char('r'), pressed: true }), KeyEffect::RescanRepositories);
    assert_eq!(nav.on_event(InputEvent::Key { key: Key::Char('r'), pressed: false }), KeyEffect::Nothing);
}

#[test]
fn keys_fit_unless_an_index_would_overflow() {
    let nav = Navigation::new();
    assert!(nav.fits(Key::Left) && nav.fits(Key::Up) && nav.fits(Key::Right) && nav.fits(Key::Char('q')));
    let huge = Navigation { selected_tab: usize::MAX, nav_selected: usize::MAX - 3, should_quit: false };
    assert!(!huge.fits(Key::Right));
    assert!(!huge.fits(Key::BackTab));
    assert!(!huge.fits(Key::Up));
    assert!(huge.fits(Key::Down));
    assert!(huge.fits(Key::Char('q')));
    assert!(huge.fits(Key::Other));
}

#[test]
fn tick_is_due_once_the_interval_has_passed() {
    assert!(!tick_due(199_999_999, 200));
    assert!(tick_due(200_000_000, 200));
    assert!(tick_due(u128::MAX, u64::MAX));
    assert!(!tick_due(0, 1));
    assert!(tick_due(0, 0));
}
