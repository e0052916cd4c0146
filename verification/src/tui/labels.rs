//! The text of the dashboard's labels that carry numbers or names.

use vstd::prelude::*;

use crate::format::{decimal, decimal_string, human_bytes, human_bytes_text};
use crate::git::discovery::DiscoveredRepository;
use crate::metrics::DiskSnapshot;
use crate::text::concat;
use crate::tui::app::{tab_title, tab_title_text, TAB_COUNT};

verus! {

/// `used / total`, each in human-readable bytes.
pub open spec fn usage_text(used: nat, total: nat) -> Seq<char> {
    human_bytes_text(used) + seq![' ', '/', ' '] + human_bytes_text(total)
}

/// The memory and disk gauges' label: `<used> / <total>`.
pub fn usage_label(used: u64, total: u64) -> (label: String)
    ensures
        label@ == usage_text(used as nat, total as nat),
{
    proof {
        reveal_strlit(" / ");
    }
    let mut label = human_bytes(used);
    label.append(" / ");
    let total_text = human_bytes(total);
    label.append(total_text.as_str());
    assert(label@ =~= usage_text(used as nat, total as nat));
    label
}

/// The disk gauge's label: `<mount point>  <used> / <total>`.
pub fn disk_label(disk: &DiskSnapshot) -> (label: String)
    ensures
        label@ == disk.mount_point@ + seq![' ', ' '] + usage_text(
            if disk.available_bytes <= disk.total_bytes {
                (disk.total_bytes - disk.available_bytes) as nat
            } else {
                0
            },
            disk.total_bytes as nat,
        ),
{
    proof {
        reveal_strlit("  ");
    }
    let with_gap = concat(disk.mount_point.as_str(), "  ");
    let usage = usage_label(disk.used_bytes(), disk.total_bytes);
    let label = concat(with_gap.as_str(), usage.as_str());
    assert(label@ =~= disk.mount_point@ + seq![' ', ' '] + usage@);
    label
}

/// The kind of a repository as the repository list names it.
pub open spec fn repository_kind_text(is_bare: bool) -> Seq<char> {
    if is_bare {
        seq!['b', 'a', 'r', 'e']
    } else {
        seq!['w', 'o', 'r', 'k', 't', 'r', 'e', 'e']
    }
}

/// A line of the repository list: `📁 <slug>  (bare)` or
/// `📁 <slug>  (worktree)`.
pub fn repository_entry_label(repo: &DiscoveredRepository) -> (label: String)
    ensures
        label@ == seq!['📁', ' '] + repo.slug@ + seq![' ', ' ', '('] + repository_kind_text(repo.is_bare)
            + seq![')'],
{
    proof {
        reveal_strlit("📁 ");
        reveal_strlit("  (");
        reveal_strlit(")");
        reveal_strlit("bare");
        reveal_strlit("worktree");
    }
    let kind = if repo.is_bare {
        "bare"
    } else {
        "worktree"
    };
    let mut label = concat("📁 ", repo.slug.as_str());
    label.append("  (");
    label.append(kind);
    label.append(")");
    assert(kind@ =~= repository_kind_text(repo.is_bare));
    assert(label@ =~= seq!['📁', ' '] + repo.slug@ + seq![' ', ' ', '('] + repository_kind_text(repo.is_bare)
        + seq![')']);
    label
}

/// The status bar's repository count: `Repositories <n>  `.
pub fn repository_count_label(count: usize) -> (label: String)
    ensures
        label@ == seq!['R', 'e', 'p', 'o', 's', 'i', 't', 'o', 'r', 'i', 'e', 's', ' '] + decimal(count as nat)
            + seq![' ', ' '],
{
    proof {
        reveal_strlit("Repositories ");
        reveal_strlit("  ");
    }
    let mut label = "Repositories ".to_owned();
    let digits = decimal_string(count as u128);
    label.append(digits.as_str());
    label.append("  ");
    assert(label@ =~= seq!['R', 'e', 'p', 'o', 's', 'i', 't', 'o', 'r', 'i', 'e', 's', ' '] + decimal(count as nat)
        + seq![' ', ' ']);
    label
}

/// How many repositories the activity chart shows.
pub const ACTIVITY_BARS: usize = 7;

/// The slugs the activity chart shows: those of the first
/// [`ACTIVITY_BARS`] repositories, in order.
pub fn activity_slugs(repositories: &Vec<DiscoveredRepository>) -> (slugs: Vec<String>)
    ensures
        slugs@.len() == if repositories@.len() < ACTIVITY_BARS {
            repositories@.len()
        } else {
            ACTIVITY_BARS as nat
        },
        forall|i: int| 0 <= i < slugs@.len() ==> #[trigger] slugs@[i]@ == repositories@[i].slug@,
{
    let mut slugs: Vec<String> = Vec::new();
    let mut i: usize = 0;
    while i < repositories.len() && i < ACTIVITY_BARS
        invariant
            i <= repositories@.len(),
            i <= ACTIVITY_BARS,
            slugs@.len() == i,
            forall|k: int| 0 <= k < i ==> #[trigger] slugs@[k]@ == repositories@[k].slug@,
        decreases repositories@.len() - i,
    {
        slugs.push(repositories[i].slug.clone());
        i = i + 1;
    }
    slugs
}

/// The sidebar's item for tab `index`: its title, indented by two spaces.
pub fn nav_item_label(index: usize) -> (label: String)
    requires
        index < TAB_COUNT,
    ensures
        label@ == seq![' ', ' '] + tab_title_text(index as nat),
{
    proof {
        reveal_strlit("  ");
    }
    let label = concat("  ", tab_title(index));
    label
}

} // verus!
