//! Dashboard state and how it reacts to keys and ticks.

use vstd::prelude::*;

verus! {

/// The number of tabs: Dashboard, Repositories, Users, Organizations,
/// SSH Keys, Packages, Metrics, Logs.
pub const TAB_COUNT: usize = 8;

/// The title of tab `index`.
pub open spec fn tab_title_text(index: nat) -> Seq<char> {
    if index == 0 {
        seq!['D', 'a', 's', 'h', 'b', 'o', 'a', 'r', 'd']
    } else if index == 1 {
        seq!['R', 'e', 'p', 'o', 's', 'i', 't', 'o', 'r', 'i', 'e', 's']
    } else if index == 2 {
        seq!['U', 's', 'e', 'r', 's']
    } else if index == 3 {
        seq!['O', 'r', 'g', 'a', 'n', 'i', 'z', 'a', 't', 'i', 'o', 'n', 's']
    } else if index == 4 {
        seq!['S', 'S', 'H', ' ', 'K', 'e', 'y', 's']
    } else if index == 5 {
        seq!['P', 'a', 'c', 'k', 'a', 'g', 'e', 's']
    } else if index == 6 {
        seq!['M', 'e', 't', 'r', 'i', 'c', 's']
    } else {
        seq!['L', 'o', 'g', 's']
    }
}

/// The title of tab `index`, for the tab bar and the navigation sidebar.
pub fn tab_title(index: usize) -> (title: &'static str)
    requires
        index < TAB_COUNT,
    ensures
        title@ == tab_title_text(index as nat),
{
    proof {
        reveal_strlit("Dashboard");
        reveal_strlit("Repositories");
        reveal_strlit("Users");
        reveal_strlit("Organizations");
        reveal_strlit("SSH Keys");
        reveal_strlit("Packages");
        reveal_strlit("Metrics");
        reveal_strlit("Logs");
    }
    let title = if index == 0 {
        "Dashboard"
    } else if index == 1 {
        "Repositories"
    } else if index == 2 {
        "Users"
    } else if index == 3 {
        "Organizations"
    } else if index == 4 {
        "SSH Keys"
    } else if index == 5 {
        "Packages"
    } else if index == 6 {
        "Metrics"
    } else {
        "Logs"
    };
    assert(title@ =~= tab_title_text(index as nat));
    title
}

/// A key press, as the dashboard reads it.
#[derive(Debug, Clone, Copy, PartialEq, Eq, Structural)]
pub enum Key {
    Char(char),
    Esc,
    Left,
    Right,
    Up,
    Down,
    Tab,
    BackTab,
    /// Any other key; it does nothing.
    Other,
}

/// What the caller should do after a key press.
#[derive(Debug, Clone, Copy, PartialEq, Eq, Structural)]
pub enum KeyEffect {
    Nothing,
    /// Rescan the storage directory for repositories.
    RescanRepositories,
}

/// A terminal event as the dashboard loop sees it: a key with whether it
/// was pressed (rather than released or repeated), or anything else.
#[derive(Debug, Clone, Copy, PartialEq, Eq, Structural)]
pub enum InputEvent {
    Key { key: Key, pressed: bool },
    Other,
}

/// Which tab is shown, which sidebar entry is selected, and whether the
/// user asked to quit.
#[derive(Debug, Clone, Copy, PartialEq, Eq, Structural)]
pub struct Navigation {
    pub selected_tab: usize,
    pub nav_selected: usize,
    pub should_quit: bool,
}

/// The index after `i`, wrapping around the tabs.
pub open spec fn next_index(i: nat) -> nat {
    (i + 1) % (TAB_COUNT as nat)
}

/// The index before `i`, wrapping around the tabs.
pub open spec fn previous_index(i: nat) -> nat {
    ((i + TAB_COUNT) - 1) as nat % (TAB_COUNT as nat)
}

/// The key moves to the next tab.
pub open spec fn is_next_tab_key(key: Key) -> bool {
    key == Key::Right || key == Key::Char('l') || key == Key::Tab
}

/// The key moves to the previous tab.
pub open spec fn is_previous_tab_key(key: Key) -> bool {
    key == Key::Left || key == Key::Char('h') || key == Key::BackTab
}

/// The key moves the sidebar selection down.
pub open spec fn is_down_key(key: Key) -> bool {
    key == Key::Down || key == Key::Char('j')
}

/// The key moves the sidebar selection up.
pub open spec fn is_up_key(key: Key) -> bool {
    key == Key::Up || key == Key::Char('k')
}

/// The key quits.
pub open spec fn is_quit_key(key: Key) -> bool {
    key == Key::Char('q') || key == Key::Esc
}

/// The key's arithmetic on the indices stays within `usize`.
pub open spec fn key_fits(nav: Navigation, key: Key) -> bool {
    &&& is_next_tab_key(key) ==> nav.selected_tab + 1 <= usize::MAX
    &&& is_previous_tab_key(key) ==> nav.selected_tab + TAB_COUNT <= usize::MAX
    &&& is_down_key(key) ==> nav.nav_selected + 1 <= usize::MAX
    &&& is_up_key(key) ==> nav.nav_selected + TAB_COUNT <= usize::MAX
}

/// The navigation after `key`, and what the caller should then do.
pub open spec fn after_key(nav: Navigation, key: Key) -> (Navigation, KeyEffect) {
    if is_quit_key(key) {
        (Navigation { should_quit: true, ..nav }, KeyEffect::Nothing)
    } else if is_next_tab_key(key) {
        (Navigation { selected_tab: next_index(nav.selected_tab as nat) as usize, ..nav }, KeyEffect::Nothing)
    } else if is_previous_tab_key(key) {
        (
            Navigation { selected_tab: previous_index(nav.selected_tab as nat) as usize, ..nav },
            KeyEffect::Nothing,
        )
    } else if is_down_key(key) {
        (Navigation { nav_selected: next_index(nav.nav_selected as nat) as usize, ..nav }, KeyEffect::Nothing)
    } else if is_up_key(key) {
        (
            Navigation { nav_selected: previous_index(nav.nav_selected as nat) as usize, ..nav },
            KeyEffect::Nothing,
        )
    } else if key == Key::Char('r') {
        (nav, KeyEffect::RescanRepositories)
    } else {
        (nav, KeyEffect::Nothing)
    }
}

impl Navigation {
    /// The state a fresh dashboard starts in: first tab, first sidebar
    /// entry, not quitting.
    pub fn new() -> (nav: Self)
        ensures
            nav == (Navigation { selected_tab: 0, nav_selected: 0, should_quit: false }),
    {
        Navigation { selected_tab: 0, nav_selected: 0, should_quit: false }
    }

    /// React to a key press: `q`/Esc quit; Right/`l`/Tab and Left/`h`/
    /// BackTab move between tabs; Down/`j` and Up/`k` move the sidebar
    /// selection; `r` asks for a repository rescan. Moves wrap around.
    pub fn on_key(&mut self, key: Key) -> (effect: KeyEffect)
        requires
            key_fits(*old(self), key),
        ensures
            (*final(self), effect) == after_key(*old(self), key),
    {
        match key {
            Key::Char('q') | Key::Esc => {
                self.should_quit = true;
                KeyEffect::Nothing
            },
            Key::Right | Key::Char('l') | Key::Tab => {
                self.selected_tab = (self.selected_tab + 1) % TAB_COUNT;
                KeyEffect::Nothing
            },
            Key::Left | Key::Char('h') | Key::BackTab => {
                self.selected_tab = (self.selected_tab + TAB_COUNT - 1) % TAB_COUNT;
                KeyEffect::Nothing
            },
            Key::Down | Key::Char('j') => {
                self.nav_selected = (self.nav_selected + 1) % TAB_COUNT;
                KeyEffect::Nothing
            },
            Key::Up | Key::Char('k') => {
                self.nav_selected = (self.nav_selected + TAB_COUNT - 1) % TAB_COUNT;
                KeyEffect::Nothing
            },
            Key::Char('r') => KeyEffect::RescanRepositories,
            _ => KeyEffect::Nothing,
        }
    }

    /// Whether `key` can be handled from this state without an index
    /// overflowing.
    pub fn fits(&self, key: Key) -> (fits: bool)
        ensures
            fits == key_fits(*self, key),
    {
        match key {
            Key::Right | Key::Char('l') | Key::Tab => self.selected_tab < usize::MAX,
            Key::Left | Key::Char('h') | Key::BackTab => self.selected_tab <= usize::MAX - TAB_COUNT,
            Key::Down | Key::Char('j') => self.nav_selected < usize::MAX,
            Key::Up | Key::Char('k') => self.nav_selected <= usize::MAX - TAB_COUNT,
            _ => true,
        }
    }

    /// Apply a terminal event: only key presses are handled; releases,
    /// repeats and other events change nothing.
    pub fn on_event(&mut self, event: InputEvent) -> (effect: KeyEffect)
        requires
            event matches InputEvent::Key { key, pressed: true } ==> key_fits(*old(self), key),
        ensures
            match event {
                InputEvent::Key { key, pressed: true } => (*final(self), effect) == after_key(*old(self), key),
                _ => *final(self) == *old(self) && effect == KeyEffect::Nothing,
            },
    {
        match event {
            InputEvent::Key { key, pressed } => if pressed {
                self.on_key(key)
            } else {
                KeyEffect::Nothing
            },
            InputEvent::Other => KeyEffect::Nothing,
        }
    }
}

/// Whether a tick is due: `elapsed_ns` nanoseconds since the last tick have
/// reached the tick interval of `tick_ms` milliseconds.
pub fn tick_due(elapsed_ns: u128, tick_ms: u64) -> (due: bool)
    ensures
        due == (elapsed_ns >= tick_ms * 1_000_000),
{
    elapsed_ns >= (tick_ms as u128) * 1_000_000
}

/// Law: from a valid state (both indices naming a tab), every key leaves
/// both indices naming a tab.
pub proof fn lemma_indices_stay_in_range(nav: Navigation, key: Key)
    requires
        nav.selected_tab < TAB_COUNT,
        nav.nav_selected < TAB_COUNT,
    ensures
        after_key(nav, key).0.selected_tab < TAB_COUNT,
        after_key(nav, key).0.nav_selected < TAB_COUNT,
{
}

/// Law: moving to the next tab and then back to the previous one (or the
/// other way round) returns to the same tab.
pub proof fn lemma_next_previous_inverse(i: nat)
    requires
        i < TAB_COUNT,
    ensures
        previous_index(next_index(i)) == i,
        next_index(previous_index(i)) == i,
{
}

/// Law: moving forward through all the tabs comes back to the start.
pub proof fn lemma_full_cycle(i: nat)
    requires
        i < TAB_COUNT,
    ensures
        next_index(next_index(next_index(next_index(next_index(next_index(next_index(next_index(i))))))))
            == i,
{
    lemma_next_index_step(i);
    lemma_next_index_step(next_index(i));
    lemma_next_index_step(next_index(next_index(i)));
    lemma_next_index_step(next_index(next_index(next_index(i))));
    lemma_next_index_step(next_index(next_index(next_index(next_index(i)))));
    lemma_next_index_step(next_index(next_index(next_index(next_index(next_index(i))))));
    lemma_next_index_step(next_index(next_index(next_index(next_index(next_index(next_index(i)))))));
    lemma_next_index_step(next_index(next_index(next_index(next_index(next_index(next_index(next_index(i))))))));
}

/// One step forward: the next tab, wrapping from the last to the first.
proof fn lemma_next_index_step(i: nat)
    requires
        i < TAB_COUNT,
    ensures
        next_index(i) == if i + 1 == TAB_COUNT { 0 } else { i + 1 },
{
}

/// Law: the sidebar keys move the selection one entry down (`Down`, `j`)
/// or up (`Up`, `k`), wrapping from the last entry to the first and from
/// the first to the last, and change nothing else.
pub proof fn lemma_sidebar_keys_wrap(nav: Navigation, key: Key)
    ensures
        (key == Key::Down || key == Key::Char('j')) ==> after_key(nav, key) == (
            Navigation { nav_selected: ((nav.nav_selected + 1) % 8) as usize, ..nav },
            KeyEffect::Nothing,
        ),
        (key == Key::Up || key == Key::Char('k')) ==> after_key(nav, key) == (
            Navigation { nav_selected: ((nav.nav_selected + 7) % 8) as usize, ..nav },
            KeyEffect::Nothing,
        ),
        (key == Key::Down || key == Key::Char('j')) && nav.nav_selected == 7 ==> after_key(nav, key).0.nav_selected == 0,
        (key == Key::Up || key == Key::Char('k')) && nav.nav_selected == 0 ==> after_key(nav, key).0.nav_selected == 7,
{
}

/// Law: the tab keys move to the next tab (`Right`, `l`, `Tab`) or the
/// previous one (`Left`, `h`, `BackTab`), wrapping from the last tab to the
/// first and from the first to the last, and change nothing else.
pub proof fn lemma_tab_keys_wrap(nav: Navigation, key: Key)
    ensures
        (key == Key::Right || key == Key::Char('l') || key == Key::Tab) ==> after_key(nav, key) == (
            Navigation { selected_tab: ((nav.selected_tab + 1) % 8) as usize, ..nav },
            KeyEffect::Nothing,
        ),
        (key == Key::Left || key == Key::Char('h') || key == Key::BackTab) ==> after_key(nav, key) == (
            Navigation { selected_tab: ((nav.selected_tab + 7) % 8) as usize, ..nav },
            KeyEffect::Nothing,
        ),
        (key == Key::Right || key == Key::Char('l') || key == Key::Tab) && nav.selected_tab == 7
            ==> after_key(nav, key).0.selected_tab == 0,
        (key == Key::Left || key == Key::Char('h') || key == Key::BackTab) && nav.selected_tab == 0
            ==> after_key(nav, key).0.selected_tab == 7,
{
}

/// Law: from a valid state, one step down the sidebar and one step up
/// (in either order) come back to the same state.
pub proof fn lemma_sidebar_moves_undo(nav: Navigation)
    requires
        nav.nav_selected < TAB_COUNT,
    ensures
        after_key(after_key(nav, Key::Down).0, Key::Up).0 == nav,
        after_key(after_key(nav, Key::Up).0, Key::Down).0 == nav,
{
    let down = after_key(nav, Key::Down).0;
    let up = after_key(nav, Key::Up).0;
    lemma_sidebar_keys_wrap(nav, Key::Down);
    lemma_sidebar_keys_wrap(nav, Key::Up);
    lemma_sidebar_keys_wrap(down, Key::Up);
    lemma_sidebar_keys_wrap(up, Key::Down);
    assert(((nav.nav_selected + 1) % 8 + 7) % 8 == nav.nav_selected);
    assert(((nav.nav_selected + 7) % 8 + 1) % 8 == nav.nav_selected);
}

/// Law: from a valid state, one tab forward and one back (in either order)
/// come back to the same state.
pub proof fn lemma_tab_moves_undo(nav: Navigation)
    requires
        nav.selected_tab < TAB_COUNT,
    ensures
        after_key(after_key(nav, Key::Right).0, Key::Left).0 == nav,
        after_key(after_key(nav, Key::Left).0, Key::Right).0 == nav,
{
    let right = after_key(nav, Key::Right).0;
    let left = after_key(nav, Key::Left).0;
    lemma_tab_keys_wrap(nav, Key::Right);
    lemma_tab_keys_wrap(nav, Key::Left);
    lemma_tab_keys_wrap(right, Key::Left);
    lemma_tab_keys_wrap(left, Key::Right);
    assert(((nav.selected_tab + 1) % 8 + 7) % 8 == nav.selected_tab);
    assert(((nav.selected_tab + 7) % 8 + 1) % 8 == nav.selected_tab);
}

/// Law: once quitting is asked for, no key takes it back.
pub proof fn lemma_quit_is_final(nav: Navigation, key: Key)
    requires
        nav.should_quit,
    ensures
        after_key(nav, key).0.should_quit,
{
}

/// Law: only `r` asks for a rescan, and it changes no state.
pub proof fn lemma_only_r_rescans(nav: Navigation, key: Key)
    ensures
        (after_key(nav, key).1 == KeyEffect::RescanRepositories) == (key == Key::Char('r')),
        key == Key::Char('r') ==> after_key(nav, key).0 == nav,
{
}

/// How many samples of history the sparklines keep: as many columns as
/// are worth showing at once.
pub const HISTORY_CAPACITY: usize = 120;

/// A sample series after appending `x`: the oldest sample is dropped when
/// the series grows past [`HISTORY_CAPACITY`].
pub open spec fn rolled(samples: Seq<u64>, x: u64) -> Seq<u64> {
    let grown = samples.push(x);
    if grown.len() > HISTORY_CAPACITY {
        grown.drop_first()
    } else {
        grown
    }
}

/// A rolling window of recent samples, feeding the CPU and network
/// sparklines.
#[derive(Debug, Clone)]
pub struct History {
    pub cpu: Vec<u64>,
    pub network_rx: Vec<u64>,
}

impl Default for History {
    fn default() -> (history: Self)
        ensures
            history.cpu@ == Seq::<u64>::empty(),
            history.network_rx@ == Seq::<u64>::empty(),
    {
        History { cpu: Vec::new(), network_rx: Vec::new() }
    }
}

/// Append a sample to one series, dropping the oldest past capacity.
fn roll(samples: &mut Vec<u64>, x: u64)
    ensures
        final(samples)@ == rolled(old(samples)@, x),
{
    samples.push(x);
    if samples.len() > HISTORY_CAPACITY {
        samples.remove(0);
        assert(samples@ =~= rolled(old(samples)@, x));
    }
}

impl History {
    /// Record one tick's samples: CPU usage (percent, rounded) and bytes
    /// received over the network.
    pub fn push(&mut self, cpu_percent: u64, network_rx_bytes: u64)
        ensures
            final(self).cpu@ == rolled(old(self).cpu@, cpu_percent),
            final(self).network_rx@ == rolled(old(self).network_rx@, network_rx_bytes),
    {
        roll(&mut self.cpu, cpu_percent);
        roll(&mut self.network_rx, network_rx_bytes);
    }
}

/// Law: a series within capacity stays within capacity, ends with the
/// newest sample, and keeps the most recent samples in order.
pub proof fn lemma_rolled_window(samples: Seq<u64>, x: u64)
    requires
        samples.len() <= HISTORY_CAPACITY,
    ensures
        rolled(samples, x).len() <= HISTORY_CAPACITY,
        rolled(samples, x).last() == x,
        rolled(samples, x) == samples.push(x).skip(samples.push(x).len() - rolled(samples, x).len()),
{
    assert(samples.push(x).skip(0) =~= samples.push(x));
    assert(samples.push(x).drop_first() =~= samples.push(x).skip(1));
}

/// The tick interval in milliseconds: the configured refresh interval, but
/// never below 200 ms.
pub fn tick_interval_ms(refresh_interval_ms: u64) -> (interval: u64)
    ensures
        interval == if refresh_interval_ms < 200 { 200 } else { refresh_interval_ms },
{
    if refresh_interval_ms < 200 {
        200
    } else {
        refresh_interval_ms
    }
}

} // verus!
