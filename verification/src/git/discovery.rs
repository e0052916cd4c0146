//! Walking a directory tree for git repositories, the way the server builds
//! its repository list on startup.
//!
//! The walk itself is verified here; reading directories and trying to open
//! a repository are the caller's, handed in as closures. The contract of
//! [`discover_repositories`] says that, whatever those closures answered,
//! the result is exactly what the recursive walk over those answers gives,
//! sorted by slug.

use vstd::prelude::*;

use crate::git::error::{GitError, GitErrorView};
use crate::text::{ends_with, seq_lt, str_ends_with, str_less, substring, concat};

verus! {

/// A repository found while scanning storage, before it has been opened in
/// full.
#[derive(Debug, Clone)]
pub struct DiscoveredRepository {
    pub path: String,
    pub slug: String,
    pub is_bare: bool,
}

/// The mathematical content of a [`DiscoveredRepository`].
pub struct RepoView {
    pub path: Seq<char>,
    pub slug: Seq<char>,
    pub is_bare: bool,
}

impl View for DiscoveredRepository {
    type V = RepoView;

    open spec fn view(&self) -> RepoView {
        RepoView { path: self.path@, slug: self.slug@, is_bare: self.is_bare }
    }
}

/// One entry of a directory listing, with what the walk needs to know of it.
#[derive(Debug)]
pub struct DirEntryInfo {
    /// The entry's own name within its directory.
    pub file_name: String,
    /// Whether the entry is a directory (following symlinks).
    pub is_dir: bool,
    /// Whether the entry contains a `.git` directory.
    pub has_dot_git: bool,
}

/// What reading one directory gave: the directory could not be read, or
/// its entries, each of which may itself have failed to be read.
pub type DirListing = Result<Vec<Result<DirEntryInfo, std::io::Error>>, std::io::Error>;

/// One question the walk asked of the file system, and the answer it got.
pub enum Exchange {
    Listing { dir: String, listing: DirListing },
    Opened { path: String, opened: bool },
}

/// The characters `.git`.
pub open spec fn git_suffix() -> Seq<char> {
    seq!['.', 'g', 'i', 't']
}

/// The file name has the extension `git` (as `Path::extension` reads it:
/// the part after the last dot, provided something comes before that dot).
pub open spec fn is_git_extension(name: Seq<char>) -> bool {
    name.len() > 4 && ends_with(name, git_suffix())
}

/// The slug of a repository: its path relative to the storage root with a
/// trailing `.git` removed.
pub open spec fn slug_of(relative: Seq<char>) -> Seq<char> {
    if ends_with(relative, git_suffix()) {
        relative.subrange(0, relative.len() - 4)
    } else {
        relative
    }
}

/// The relative path of `name` inside the directory whose relative path is
/// `parent`, components separated by `/`.
pub open spec fn joined_relative(parent: Seq<char>, name: Seq<char>) -> Seq<char> {
    if parent.len() == 0 {
        name
    } else {
        parent + seq!['/'] + name
    }
}

/// The path of the entry `name` inside the directory at path `dir`, as
/// `Path::join` builds it: a `/` goes between them unless `dir` is empty or
/// already ends with one.
pub open spec fn joined_path(dir: Seq<char>, name: Seq<char>) -> Seq<char> {
    if dir.len() == 0 || dir.last() == '/' {
        dir + name
    } else {
        dir + seq!['/'] + name
    }
}

/// The outcome of walking part of the tree over a transcript of answers,
/// starting at a position in it: repositories found and the position after
/// the answers used; or the repositories found before the error the walk
/// stopped at, that error and the position after it; or `Incomplete` when
/// the transcript does not hold the answers the walk asks for.
pub enum Walk {
    Found(Seq<RepoView>, nat),
    Failed(Seq<RepoView>, GitErrorView, nat),
    Incomplete,
}

/// Repositories found earlier, put in front of the outcome of what follows.
pub open spec fn prepend(found: Seq<RepoView>, w: Walk) -> Walk {
    match w {
        Walk::Found(rest, p) => Walk::Found(found + rest, p),
        Walk::Failed(rest, e, p) => Walk::Failed(found + rest, e, p),
        Walk::Incomplete => Walk::Incomplete,
    }
}

/// The answer to "does `path` open as a repository" at position `p`.
pub open spec fn open_answer(t: Seq<Exchange>, p: nat, path: Seq<char>) -> Option<bool> {
    if p < t.len() {
        match t[p as int] {
            Exchange::Opened { path: q, opened } => if q@ == path {
                Some(opened)
            } else {
                None
            },
            _ => None,
        }
    } else {
        None
    }
}

/// The repository an entry of the directory `dir` stands for, once it has
/// opened.
pub open spec fn repo_of(info: DirEntryInfo, dir: Seq<char>, relative: Seq<char>) -> RepoView {
    RepoView {
        path: joined_path(dir, info.file_name@),
        slug: slug_of(relative),
        is_bare: is_git_extension(info.file_name@),
    }
}

/// Walk the directory `dir` (relative path `rel`), whose entries and
/// `depth - 1` further levels below them are still to be looked at,
/// reading its listing from position `p` of the transcript.
pub open spec fn walk_dir(
    t: Seq<Exchange>,
    p: nat,
    rel: Seq<char>,
    dir: Seq<char>,
    depth: nat,
) -> Walk
    decreases depth, 1nat, 0nat,
{
    if p < t.len() {
        match t[p as int] {
            Exchange::Listing { dir: d, listing } => if d@ == dir {
                match listing {
                    Err(e) => Walk::Failed(Seq::empty(), GitErrorView::Scan { path: dir, source: e }, p + 1),
                    Ok(entries) => walk_entries(t, p + 1, rel, dir, entries@, depth),
                }
            } else {
                Walk::Incomplete
            },
            _ => Walk::Incomplete,
        }
    } else {
        Walk::Incomplete
    }
}

/// Walk the remaining `entries` of the directory `dir`, in order: a
/// directory that opens as a repository is recorded; any other directory
/// is descended into while its entries are still within `depth` levels; a
/// failed entry stops the walk.
pub open spec fn walk_entries(
    t: Seq<Exchange>,
    p: nat,
    rel: Seq<char>,
    dir: Seq<char>,
    entries: Seq<Result<DirEntryInfo, std::io::Error>>,
    depth: nat,
) -> Walk
    decreases depth, 0nat, entries.len(),
{
    if entries.len() == 0 {
        Walk::Found(Seq::empty(), p)
    } else {
        let rest = entries.drop_first();
        match entries[0] {
            Err(e) => Walk::Failed(Seq::empty(), GitErrorView::Scan { path: dir, source: e }, p),
            Ok(info) => if !info.is_dir {
                walk_entries(t, p, rel, dir, rest, depth)
            } else {
                let child = joined_relative(rel, info.file_name@);
                let candidate = is_git_extension(info.file_name@) || info.has_dot_git;
                if candidate && open_answer(t, p, joined_path(dir, info.file_name@)) is None {
                    Walk::Incomplete
                } else if candidate && open_answer(t, p, joined_path(dir, info.file_name@)) == Some(true) {
                    prepend(seq![repo_of(info, dir, child)], walk_entries(t, p + 1, rel, dir, rest, depth))
                } else {
                    let q: nat = if candidate { p + 1 } else { p };
                    if depth > 1 {
                        match walk_dir(t, q, child, joined_path(dir, info.file_name@), (depth - 1) as nat) {
                            Walk::Found(a, q2) => prepend(a, walk_entries(t, q2, rel, dir, rest, depth)),
                            other => other,
                        }
                    } else {
                        walk_entries(t, q, rel, dir, rest, depth)
                    }
                }
            },
        }
    }
}

/// Continue an outcome with the walk of further entries.
pub open spec fn then_entries(
    w: Walk,
    t: Seq<Exchange>,
    rel: Seq<char>,
    dir: Seq<char>,
    entries: Seq<Result<DirEntryInfo, std::io::Error>>,
    depth: nat,
) -> Walk {
    match w {
        Walk::Found(a, p) => prepend(a, walk_entries(t, p, rel, dir, entries, depth)),
        other => other,
    }
}

/// `t2` extends `t`.
pub open spec fn extends(t2: Seq<Exchange>, t: Seq<Exchange>) -> bool {
    t.len() <= t2.len() && t2.take(t.len() as int) == t
}

/// Insert `x` into `sorted` just before the first element whose slug is
/// greater, so that elements with equal slugs keep their order.
pub open spec fn insert_by_slug(sorted: Seq<RepoView>, x: RepoView) -> Seq<RepoView>
    decreases sorted.len(),
{
    if sorted.len() == 0 {
        seq![x]
    } else if seq_lt(x.slug, sorted[0].slug) {
        seq![x] + sorted
    } else {
        seq![sorted[0]] + insert_by_slug(sorted.drop_first(), x)
    }
}

/// The stable sort of `s` by slug.
pub open spec fn sort_by_slug(s: Seq<RepoView>) -> Seq<RepoView>
    decreases s.len(),
{
    if s.len() == 0 {
        s
    } else {
        insert_by_slug(sort_by_slug(s.drop_last()), s.last())
    }
}

/// The slugs of `s` never decrease.
pub open spec fn sorted_by_slug(s: Seq<RepoView>) -> bool {
    forall|i: int, j: int| 0 <= i < j < s.len() ==> !seq_lt(#[trigger] s[j].slug, #[trigger] s[i].slug)
}

/// What discovering repositories under `root` gives over the transcript
/// `t`, provided the walk used exactly the answers in `t`.
pub open spec fn discovered(
    root: Seq<char>,
    max_depth: nat,
    root_exists: bool,
    t: Seq<Exchange>,
) -> Option<Result<Seq<RepoView>, GitErrorView>> {
    if !root_exists || max_depth == 0 {
        if t.len() == 0 {
            Some(Ok(Seq::empty()))
        } else {
            None
        }
    } else {
        match walk_dir(t, 0, Seq::empty(), root, max_depth) {
            Walk::Found(found, n) => if n == t.len() {
                Some(Ok(sort_by_slug(found)))
            } else {
                None
            },
            Walk::Failed(_, e, n) => if n == t.len() {
                Some(Err(e))
            } else {
                None
            },
            Walk::Incomplete => None,
        }
    }
}

/// Every answer in `t` is one the closures could have given to its question.
pub open spec fn answers_possible<F, G>(t: Seq<Exchange>, read_dir: F, open_repository: G) -> bool where
    F: Fn(&String) -> DirListing,
    G: Fn(&String) -> bool,
 {
    forall|i: int|
        0 <= i < t.len() ==> match #[trigger] t[i] {
            Exchange::Listing { dir, listing } => call_ensures(read_dir, (&dir,), listing),
            Exchange::Opened { path, opened } => call_ensures(open_repository, (&path,), opened),
        }
}

/// The views of a sequence of discovered repositories.
pub open spec fn views(s: Seq<DiscoveredRepository>) -> Seq<RepoView> {
    s.map_values(|x: DiscoveredRepository| x@)
}

/// The mathematical content of a discovery result.
pub open spec fn result_view(r: Result<Vec<DiscoveredRepository>, GitError>) -> Result<Seq<RepoView>, GitErrorView> {
    match r {
        Ok(v) => Ok(views(v@)),
        Err(e) => Err(e@),
    }
}


/// Putting `x` and then `a` in front is putting `x + a` in front.
proof fn lemma_prepend_prepend(x: Seq<RepoView>, a: Seq<RepoView>, w: Walk)
    ensures
        prepend(x, prepend(a, w)) == prepend(x + a, w),
{
    match w {
        Walk::Found(r, p) => {
            assert(x + (a + r) =~= (x + a) + r);
        },
        Walk::Failed(r, e, p) => {
            assert(x + (a + r) =~= (x + a) + r);
        },
        Walk::Incomplete => {},
    }
}

/// Putting nothing in front changes nothing.
proof fn lemma_prepend_empty(w: Walk)
    ensures
        prepend(Seq::empty(), w) == w,
{
    match w {
        Walk::Found(r, p) => {
            assert(Seq::<RepoView>::empty() + r =~= r);
        },
        Walk::Failed(r, e, p) => {
            assert(Seq::<RepoView>::empty() + r =~= r);
        },
        Walk::Incomplete => {},
    }
}

/// Found repositories can be put in front before or after continuing.
proof fn lemma_prepend_then(
    x: Seq<RepoView>,
    w: Walk,
    t: Seq<Exchange>,
    rel: Seq<char>,
    dir: Seq<char>,
    s: Seq<Result<DirEntryInfo, std::io::Error>>,
    depth: nat,
)
    ensures
        prepend(x, then_entries(w, t, rel, dir, s, depth)) == then_entries(prepend(x, w), t, rel, dir, s, depth),
{
    if let Walk::Found(a, p) = w {
        lemma_prepend_prepend(x, a, walk_entries(t, p, rel, dir, s, depth));
    }
}

/// Walking `s1 + s2` is walking `s1`, then `s2` from where `s1` stopped.
proof fn lemma_walk_entries_concat(
    t: Seq<Exchange>,
    p: nat,
    rel: Seq<char>,
    dir: Seq<char>,
    s1: Seq<Result<DirEntryInfo, std::io::Error>>,
    s2: Seq<Result<DirEntryInfo, std::io::Error>>,
    depth: nat,
)
    ensures
        walk_entries(t, p, rel, dir, s1 + s2, depth) == then_entries(
            walk_entries(t, p, rel, dir, s1, depth),
            t,
            rel,
            dir,
            s2,
            depth,
        ),
    decreases s1.len(),
{
    if s1.len() == 0 {
        assert(s1 + s2 =~= s2);
        lemma_prepend_empty(walk_entries(t, p, rel, dir, s2, depth));
    } else {
        let s = s1 + s2;
        assert(s[0] == s1[0]);
        assert(s.drop_first() =~= s1.drop_first() + s2);
        let rest1 = s1.drop_first();
        match s1[0] {
            Err(e) => {},
            Ok(info) => {
                if !info.is_dir {
                    lemma_walk_entries_concat(t, p, rel, dir, rest1, s2, depth);
                } else {
                    let child = joined_relative(rel, info.file_name@);
                    let candidate = is_git_extension(info.file_name@) || info.has_dot_git;
                    if candidate && open_answer(t, p, joined_path(dir, info.file_name@)) is None {
                    } else if candidate && open_answer(t, p, joined_path(dir, info.file_name@)) == Some(true) {
                        lemma_walk_entries_concat(t, p + 1, rel, dir, rest1, s2, depth);
                        lemma_prepend_then(
                            seq![repo_of(info, dir, child)],
                            walk_entries(t, p + 1, rel, dir, rest1, depth),
                            t,
                            rel,
                            dir,
                            s2,
                            depth,
                        );
                    } else {
                        let q: nat = if candidate { p + 1 } else { p };
                        if depth > 1 {
                            match walk_dir(t, q, child, joined_path(dir, info.file_name@), (depth - 1) as nat) {
                                Walk::Found(a, q2) => {
                                    lemma_walk_entries_concat(t, q2, rel, dir, rest1, s2, depth);
                                    lemma_prepend_then(
                                        a,
                                        walk_entries(t, q2, rel, dir, rest1, depth),
                                        t,
                                        rel,
                                        dir,
                                        s2,
                                        depth,
                                    );
                                },
                                _ => {},
                            }
                        } else {
                            lemma_walk_entries_concat(t, q, rel, dir, rest1, s2, depth);
                        }
                    }
                }
            },
        }
    }
}

/// A walk that got its answers from `t` gives the same outcome over any
/// extension of `t`.
proof fn lemma_walk_dir_frame(
    t: Seq<Exchange>,
    t2: Seq<Exchange>,
    p: nat,
    rel: Seq<char>,
    dir: Seq<char>,
    depth: nat,
)
    requires
        !(walk_dir(t, p, rel, dir, depth) is Incomplete),
        extends(t2, t),
    ensures
        walk_dir(t2, p, rel, dir, depth) == walk_dir(t, p, rel, dir, depth),
    decreases depth, 1nat, 0nat,
{
    assert(t2[p as int] == t2.take(t.len() as int)[p as int]);
    match t[p as int] {
        Exchange::Listing { dir: d, listing } => {
            if let Ok(entries) = listing {
                lemma_walk_entries_frame(t, t2, p + 1, rel, dir, entries@, depth);
            }
        },
        _ => {},
    }
}

/// The entry-level counterpart of [`lemma_walk_dir_frame`].
proof fn lemma_walk_entries_frame(
    t: Seq<Exchange>,
    t2: Seq<Exchange>,
    p: nat,
    rel: Seq<char>,
    dir: Seq<char>,
    entries: Seq<Result<DirEntryInfo, std::io::Error>>,
    depth: nat,
)
    requires
        !(walk_entries(t, p, rel, dir, entries, depth) is Incomplete),
        extends(t2, t),
    ensures
        walk_entries(t2, p, rel, dir, entries, depth) == walk_entries(t, p, rel, dir, entries, depth),
    decreases depth, 0nat, entries.len(),
{
    if entries.len() > 0 {
        let rest = entries.drop_first();
        match entries[0] {
            Err(e) => {},
            Ok(info) => {
                if !info.is_dir {
                    lemma_walk_entries_frame(t, t2, p, rel, dir, rest, depth);
                } else {
                    let child = joined_relative(rel, info.file_name@);
                    let candidate = is_git_extension(info.file_name@) || info.has_dot_git;
                    if candidate {
                        assert(p < t.len());
                        assert(t2[p as int] == t2.take(t.len() as int)[p as int]);
                        assert(open_answer(t2, p, joined_path(dir, info.file_name@)) == open_answer(t, p, joined_path(dir, info.file_name@)));
                    }
                    if candidate && open_answer(t, p, joined_path(dir, info.file_name@)) == Some(true) {
                        lemma_walk_entries_frame(t, t2, p + 1, rel, dir, rest, depth);
                    } else if !(candidate && open_answer(t, p, joined_path(dir, info.file_name@)) is None) {
                        let q: nat = if candidate { p + 1 } else { p };
                        if depth > 1 {
                            lemma_walk_dir_frame(t, t2, q, child, joined_path(dir, info.file_name@), (depth - 1) as nat);
                            match walk_dir(t, q, child, joined_path(dir, info.file_name@), (depth - 1) as nat) {
                                Walk::Found(a, q2) => {
                                    lemma_walk_entries_frame(t, t2, q2, rel, dir, rest, depth);
                                },
                                _ => {},
                            }
                        } else {
                            lemma_walk_entries_frame(t, t2, q, rel, dir, rest, depth);
                        }
                    }
                }
            },
        }
    }
}


/// Whether a file name has the extension `git`.
pub fn has_git_extension(name: &str) -> (r: bool)
    ensures
        r == is_git_extension(name@),
{
    proof {
        reveal_strlit(".git");
        assert(".git"@ =~= git_suffix());
    }
    name.unicode_len() > 4 && str_ends_with(name, ".git")
}

/// The slug for a repository at `relative` below the storage root: the
/// relative path without a trailing `.git`.
pub fn slug_for(relative: &str) -> (slug: String)
    ensures
        slug@ == slug_of(relative@),
{
    proof {
        reveal_strlit(".git");
        assert(".git"@ =~= git_suffix());
    }
    if str_ends_with(relative, ".git") {
        substring(relative, 0, relative.unicode_len() - 4)
    } else {
        relative.to_owned()
    }
}

/// The path of the entry `name` inside the directory at path `dir`.
pub fn join_path(dir: &str, name: &str) -> (joined: String)
    ensures
        joined@ == joined_path(dir@, name@),
{
    proof {
        reveal_strlit("/");
        assert("/"@ =~= seq!['/']);
    }
    let n = dir.unicode_len();
    if n == 0 || dir.get_char(n - 1) == '/' {
        concat(dir, name)
    } else {
        let with_sep = concat(dir, "/");
        concat(&with_sep, name)
    }
}

/// The relative path of `name` inside the directory at relative path
/// `parent`.
pub fn join_relative(parent: &str, name: &str) -> (joined: String)
    ensures
        joined@ == joined_relative(parent@, name@),
{
    proof {
        reveal_strlit("/");
        assert("/"@ =~= seq!['/']);
    }
    if parent.unicode_len() == 0 {
        name.to_owned()
    } else {
        let with_sep = concat(parent, "/");
        concat(&with_sep, name)
    }
}

/// Inserting before the first greater slug is inserting at that index.
proof fn lemma_insert_by_slug_at(s: Seq<RepoView>, x: RepoView, j: int)
    requires
        0 <= j <= s.len(),
        forall|k: int| 0 <= k < j ==> !seq_lt(x.slug, #[trigger] s[k].slug),
        j == s.len() || seq_lt(x.slug, s[j].slug),
    ensures
        insert_by_slug(s, x) == s.insert(j, x),
    decreases s.len(),
{
    if s.len() == 0 {
        assert(seq![x] =~= s.insert(j, x));
    } else if j == 0 {
        assert(seq![x] + s =~= s.insert(j, x));
    } else {
        assert(!seq_lt(x.slug, s[0].slug));
        let tail = s.drop_first();
        assert forall|k: int| 0 <= k < j - 1 implies !seq_lt(x.slug, #[trigger] tail[k].slug) by {
            assert(tail[k] == s[k + 1]);
        }
        lemma_insert_by_slug_at(tail, x, j - 1);
        assert(seq![s[0]] + tail.insert(j - 1, x) =~= s.insert(j, x));
    }
}

/// Sort discovered repositories by slug, keeping the order of equal slugs.
fn sort_repositories(v: Vec<DiscoveredRepository>) -> (sorted: Vec<DiscoveredRepository>)
    ensures
        views(sorted@) == sort_by_slug(views(v@)),
{
    let ghost orig = views(v@);
    let ghost mut k: int = 0;
    let mut rest = v;
    let mut sorted: Vec<DiscoveredRepository> = Vec::new();
    assert(orig.take(0) =~= Seq::<RepoView>::empty());
    assert(views(rest@) =~= orig.skip(0));
    while rest.len() > 0
        invariant
            0 <= k <= orig.len(),
            orig.len() == k + rest@.len(),
            views(rest@) == orig.skip(k),
            views(sorted@) == sort_by_slug(orig.take(k)),
        decreases rest@.len(),
    {
        let ghost prev = rest@;
        let x = rest.remove(0);
        proof {
            assert(views(prev)[0] == x@);
            assert(orig.skip(k)[0] == orig[k]);
            assert forall|i: int| 0 <= i < rest@.len() implies views(rest@)[i] == orig.skip(k + 1)[i] by {
                assert(rest@[i] == prev[i + 1]);
                assert(views(prev)[i + 1] == orig.skip(k)[i + 1]);
            }
            assert(views(rest@) =~= orig.skip(k + 1));
        }
        let mut j: usize = 0;
        while j < sorted.len() && !str_less(&x.slug, &sorted[j].slug)
            invariant
                j <= sorted@.len(),
                forall|i: int| 0 <= i < j ==> !seq_lt(x.slug@, #[trigger] views(sorted@)[i].slug),
            decreases sorted@.len() - j,
        {
            j = j + 1;
        }
        proof {
            let sv = views(sorted@);
            lemma_insert_by_slug_at(sv, x@, j as int);
            let pre = orig.take(k + 1);
            assert(pre.drop_last() =~= orig.take(k));
            assert(pre.last() == orig[k]);
        }
        let ghost before = sorted@;
        sorted.insert(j, x);
        proof {
            assert(views(sorted@) =~= views(before).insert(j as int, x@));
            k = k + 1;
        }
    }
    assert(orig.take(k) =~= orig);
    sorted
}


/// Extension is transitive.
proof fn lemma_extends_trans(t3: Seq<Exchange>, t2: Seq<Exchange>, t1: Seq<Exchange>)
    requires
        extends(t3, t2),
        extends(t2, t1),
    ensures
        extends(t3, t1),
{
    assert forall|i: int| 0 <= i < t1.len() implies t3.take(t1.len() as int)[i] == t1[i] by {
        assert(t3.take(t2.len() as int)[i] == t2[i]);
        assert(t2.take(t1.len() as int)[i] == t1[i]);
    }
    assert(t3.take(t1.len() as int) =~= t1);
}

/// Pushing an answer extends a transcript.
proof fn lemma_extends_push(t: Seq<Exchange>, x: Exchange)
    ensures
        extends(t.push(x), t),
        t.push(x)[t.len() as int] == x,
{
    assert(t.push(x).take(t.len() as int) =~= t);
}

/// Every transcript extends itself.
proof fn lemma_extends_refl(t: Seq<Exchange>)
    ensures
        extends(t, t),
{
    assert(t.take(t.len() as int) =~= t);
}

/// A possible transcript stays possible when a possible answer is pushed.
proof fn lemma_possible_push<F, G>(t: Seq<Exchange>, x: Exchange, read_dir: F, open_repository: G)
    where
        F: Fn(&String) -> DirListing,
        G: Fn(&String) -> bool,
    requires
        answers_possible(t, read_dir, open_repository),
        answers_possible(seq![x], read_dir, open_repository),
    ensures
        answers_possible(t.push(x), read_dir, open_repository),
{
    assert forall|i: int| 0 <= i < t.push(x).len() implies match #[trigger] t.push(x)[i] {
        Exchange::Listing { dir, listing } => call_ensures(read_dir, (&dir,), listing),
        Exchange::Opened { path, opened } => call_ensures(open_repository, (&path,), opened),
    } by {
        if i < t.len() {
            assert(t.push(x)[i] == t[i]);
        } else {
            assert(t.push(x)[i] == seq![x][0]);
        }
    }
}

/// The walk of no entries finds nothing and uses no answer.
proof fn lemma_no_entries(
    t: Seq<Exchange>,
    rel: Seq<char>,
    dir: Seq<char>,
    x: Result<DirEntryInfo, std::io::Error>,
    depth: nat,
)
    ensures
        seq![x].drop_first() =~= Seq::<Result<DirEntryInfo, std::io::Error>>::empty(),
        forall|q: nat| walk_entries(t, q, rel, dir, Seq::empty(), depth) == Walk::Found(Seq::empty(), q),
{
}

/// Walk the directory `dir` (at relative path `rel`), whose entries and
/// `depth - 1` further levels below them are still to be looked at,
/// appending what it finds to `found`. The ghost transcript
/// `t0` holds the answers given so far; the returned one extends it with
/// the answers this walk was given.
fn walk<F, G>(
    dir: &String,
    rel: &String,
    depth: usize,
    found: &mut Vec<DiscoveredRepository>,
    read_dir: &F,
    open_repository: &G,
    t0: Ghost<Seq<Exchange>>,
) -> (out: (Result<(), GitError>, Ghost<Seq<Exchange>>)) where
    F: Fn(&String) -> DirListing,
    G: Fn(&String) -> bool,

    requires
        forall|d: &String| read_dir.requires((d,)),
        forall|q: &String| open_repository.requires((q,)),
        answers_possible(t0@, *read_dir, *open_repository),
    ensures
        extends(out.1@, t0@),
        answers_possible(out.1@, *read_dir, *open_repository),
        final(found)@.len() >= old(found)@.len(),
        final(found)@.take(old(found)@.len() as int) == old(found)@,
        match out.0 {
            Ok(()) => walk_dir(out.1@, t0@.len(), rel@, dir@, depth as nat) == Walk::Found(
                views(final(found)@.skip(old(found)@.len() as int)),
                out.1@.len(),
            ),
            Err(e) => walk_dir(out.1@, t0@.len(), rel@, dir@, depth as nat) == Walk::Failed(
                views(final(found)@.skip(old(found)@.len() as int)),
                e@,
                out.1@.len(),
            ),
        },
    decreases depth,
{
    let ghost start = found@.len();
    let ghost found0 = found@;
    let listing = read_dir(dir);
    let ghost first = Exchange::Listing { dir: *dir, listing: listing };
    let ghost listed = t0@.push(first);
    let ghost mut t = listed;
    proof {
        lemma_extends_push(t0@, first);
        lemma_possible_push(t0@, first, *read_dir, *open_repository);
        lemma_extends_refl(listed);
    }
    let mut entries = match listing {
        Err(e) => {
            let err = GitError::Scan { path: dir.clone(), source: e };
            proof {
                assert(found@.take(start as int) =~= found0);
                assert(views(found@.skip(start as int)) =~= Seq::<RepoView>::empty());
            }
            return (Err(err), Ghost(t));
        },
        Ok(entries) => entries,
    };
    let ghost orig = entries;
    let ghost all = entries@;
    let ghost p0: nat = listed.len();
    let ghost mut i: int = 0;
    proof {
        assert(all.take(0) =~= Seq::<Result<DirEntryInfo, std::io::Error>>::empty());
        assert(views(found@.skip(start as int)) =~= Seq::<RepoView>::empty());
        assert(entries@ =~= all.skip(0));
        assert(found@.take(start as int) =~= found0);
    }
    while entries.len() > 0
        invariant
            0 <= i <= all.len(),
            all == orig@,
            entries@ == all.skip(i),
            extends(t, listed),
            extends(listed, t0@),
            listed.len() == t0@.len() + 1,
            listed[t0@.len() as int] == (Exchange::Listing { dir: *dir, listing: Ok(orig) }),
            p0 == listed.len(),
            answers_possible(t, *read_dir, *open_repository),
            forall|d: &String| read_dir.requires((d,)),
            forall|q: &String| open_repository.requires((q,)),
            found@.len() >= start,
            found@.take(start as int) == found0,
            start == found0.len(),
            found0 == old(found)@,
            walk_entries(t, p0, rel@, dir@, all.take(i), depth as nat) == Walk::Found(
                views(found@.skip(start as int)),
                t.len(),
            ),
        decreases entries@.len(),
    {
        let ghost t_before = t;
        let ghost found_before = found@;
        let ghost prev_entries = entries@;
        let entry = entries.remove(0);
        let ghost x = entry;
        let ghost mut added: Seq<RepoView> = Seq::empty();
        proof {
            assert(prev_entries[0] == all[i]);
            assert(x == all[i]);
            assert(all.take(i + 1) =~= all.take(i) + seq![x]);
            assert(entries@ =~= all.skip(i + 1));
            assert(all.take(i) + all.skip(i) =~= all);
            assert(all.skip(i)[0] == x);
            assert(all.skip(i).drop_first() =~= all.skip(i + 1));
            lemma_extends_refl(t);
        }
        match entry {
            Err(e) => {
                let err = GitError::Scan { path: dir.clone(), source: e };
                proof {
                    lemma_walk_entries_concat(t, p0, rel@, dir@, all.take(i), all.skip(i), depth as nat);
                    assert(t[t0@.len() as int] == listed[t0@.len() as int]) by {
                        assert(t.take(listed.len() as int)[t0@.len() as int] == listed[t0@.len() as int]);
                    }
                    lemma_extends_trans(t, listed, t0@);
                    assert(views(found@.skip(start as int)) + Seq::<RepoView>::empty() =~= views(found@.skip(start as int)));
                }
                return (Err(err), Ghost(t));
            },
            Ok(info) => {
                let ghost gi = info;
                proof {
                    assert(x == Ok::<DirEntryInfo, std::io::Error>(gi));
                    assert(seq![x][0] == x);
                }
                if info.is_dir {
                    let child = join_relative(rel, &info.file_name);
                    let bare = has_git_extension(&info.file_name);
                    let candidate = bare || info.has_dot_git;
                    let path = join_path(dir, &info.file_name);
                    let opened = if candidate {
                        let o = open_repository(&path);
                        proof {
                            let ex = Exchange::Opened { path: path, opened: o };
                            lemma_extends_push(t, ex);
                            lemma_possible_push(t, ex, *read_dir, *open_repository);
                            lemma_extends_trans(t.push(ex), t, listed);
                            t = t.push(ex);
                            assert(open_answer(t, t_before.len(), path@) == Some(o));
                        }
                        o
                    } else {
                        false
                    };
                    let ghost t_mid = t;
                    proof {
                        assert(t_mid.len() == if candidate { t_before.len() + 1 } else { t_before.len() });
                        lemma_extends_refl(t);
                        if !candidate {
                            lemma_extends_refl(t_before);
                        }
                        lemma_no_entries(t, rel@, dir@, x, depth as nat);
                    }
                    if opened {
                        let slug = slug_for(&child);
                        let repo = DiscoveredRepository { path, slug, is_bare: bare };
                        found.push(repo);
                        proof {
                            added = seq![repo@];
                            assert(repo@ == repo_of(info, dir@, child@));
                            assert(found@.skip(start as int) =~= found_before.skip(start as int).push(repo));
                            assert(views(found@.skip(start as int)) =~= views(found_before.skip(start as int)) + added);
                            assert(found@.take(start as int) =~= found0);
                            assert(open_answer(t, t_before.len(), joined_path(dir@, gi.file_name@)) == Some(true));
                            assert(joined_relative(rel@, gi.file_name@) == child@);
                            assert(is_git_extension(gi.file_name@) || gi.has_dot_git);
                            let w1 = walk_entries(t, t_before.len() + 1, rel@, dir@, seq![x].drop_first(), depth as nat);
                            assert(w1 == Walk::Found(Seq::empty(), t.len()));
                            assert(walk_entries(t, t_before.len(), rel@, dir@, seq![x], depth as nat)
                                == prepend(seq![repo_of(gi, dir@, child@)], w1));
                            assert(walk_entries(t, t_before.len(), rel@, dir@, seq![x], depth as nat)
                                == Walk::Found(added, t.len())) by {
                                assert(seq![repo_of(gi, dir@, child@)] + Seq::<RepoView>::empty() =~= added);
                            }
                        }
                    } else if depth > 1 {
                        let (r, Ghost(t2)) = walk(
                            &path,
                            &child,
                            depth - 1,
                            found,
                            read_dir,
                            open_repository,
                            Ghost(t),
                        );
                        proof {
                            lemma_extends_trans(t2, t_mid, listed);
                            lemma_extends_trans(t2, t_mid, t_before);
                            t = t2;
                            assert(found@.take(start as int) =~= found0) by {
                                assert forall|k: int| 0 <= k < start implies found@[k] == found0[k] by {
                                    assert(found@.take(found_before.len() as int)[k] == found_before[k]);
                                    assert(found_before.take(start as int)[k] == found0[k]);
                                }
                            }
                        }
                        match r {
                            Err(e) => {
                                proof {
                                    lemma_walk_entries_frame(t_before, t, p0, rel@, dir@, all.take(i), depth as nat);
                                    lemma_walk_entries_concat(t, p0, rel@, dir@, all.take(i), all.skip(i), depth as nat);
                                    assert(t[t0@.len() as int] == listed[t0@.len() as int]) by {
                                        assert(t.take(listed.len() as int)[t0@.len() as int] == listed[t0@.len() as int]);
                                    }
                                    lemma_extends_trans(t, listed, t0@);
                                    if candidate {
                                        assert(t[t_before.len() as int] == t_mid[t_before.len() as int]) by {
                                            assert(t.take(t_mid.len() as int)[t_before.len() as int] == t_mid[t_before.len() as int]);
                                        }
                                    }
                                    assert(views(found@.skip(start as int)) =~= views(found_before.skip(start as int))
                                        + views(found@.skip(found_before.len() as int))) by {
                                        assert forall|k: int| 0 <= k < found_before.len() implies found@[k] == found_before[k] by {
                                            assert(found@.take(found_before.len() as int)[k] == found_before[k]);
                                        }
                                    }
                                }
                                return (Err(e), Ghost(t));
                            },
                            Ok(()) => {
                                proof {
                                    added = views(found@.skip(found_before.len() as int));
                                    assert(views(found@.skip(start as int)) =~= views(found_before.skip(start as int)) + added) by {
                                        assert forall|k: int| 0 <= k < found_before.len() implies found@[k] == found_before[k] by {
                                            assert(found@.take(found_before.len() as int)[k] == found_before[k]);
                                        }
                                    }
                                    lemma_no_entries(t, rel@, dir@, x, depth as nat);
                                    if candidate {
                                        assert(t[t_before.len() as int] == t_mid[t_before.len() as int]) by {
                                            assert(t.take(t_mid.len() as int)[t_before.len() as int] == t_mid[t_before.len() as int]);
                                        }
                                        assert(open_answer(t, t_before.len(), path@) == Some(false));
                                    }
                                    assert(walk_dir(t, t_mid.len(), child@, joined_path(dir@, gi.file_name@), (depth - 1) as nat)
                                        == Walk::Found(added, t.len()));
                                    assert(joined_relative(rel@, gi.file_name@) == child@);
                                    assert(candidate == (is_git_extension(gi.file_name@) || gi.has_dot_git));
                                    let w1 = walk_entries(t, t.len(), rel@, dir@, seq![x].drop_first(), depth as nat);
                                    assert(w1 == Walk::Found(Seq::empty(), t.len()));
                                    assert(walk_entries(t, t_before.len(), rel@, dir@, seq![x], depth as nat)
                                        == prepend(added, w1));
                                    assert(walk_entries(t, t_before.len(), rel@, dir@, seq![x], depth as nat)
                                        == Walk::Found(added, t.len())) by {
                                        assert(added + Seq::<RepoView>::empty() =~= added);
                                    }
                                }
                            },
                        }
                    } else {
                        proof {
                            assert(views(found@.skip(start as int)) =~= views(found_before.skip(start as int)) + added);
                        }
                    }
                    proof {
                        lemma_extends_trans(t, t_mid, t_before);
                    }
                } else {
                    proof {
                        lemma_no_entries(t, rel@, dir@, x, depth as nat);
                        assert(views(found@.skip(start as int)) =~= views(found_before.skip(start as int)) + added);
                    }
                }
            },
        }
        proof {
            assert(extends(t, t_before));
            assert(walk_entries(t, t_before.len(), rel@, dir@, seq![x], depth as nat) == Walk::Found(added, t.len()));
            lemma_walk_entries_frame(t_before, t, p0, rel@, dir@, all.take(i), depth as nat);
            lemma_walk_entries_concat(t, p0, rel@, dir@, all.take(i), seq![x], depth as nat);
            assert(views(found@.skip(start as int)) == views(found_before.skip(start as int)) + added);
            i = i + 1;
        }
    }
    proof {
        assert(all.take(i) =~= all);
        assert(t[t0@.len() as int] == listed[t0@.len() as int]) by {
            assert(t.take(listed.len() as int)[t0@.len() as int] == listed[t0@.len() as int]);
        }
        lemma_extends_trans(t, listed, t0@);
    }
    (Ok(()), Ghost(t))
}

/// Recursively scan `root` (the storage directory) for git repositories, up
/// to `max_depth` levels below it, and return them sorted by slug. A
/// typical layout is `<root>/<owner>/<name>.git`, two levels deep.
///
/// The file system is reached through the caller: `root_exists` says
/// whether `root` exists, `read_dir` lists a directory and
/// `open_repository` tries to open a path as a git repository. A directory
/// is a repository when its name has the extension `git` (a bare
/// repository) or it holds a `.git` directory, and it opens; any other
/// directory is descended into while depth is left. A directory or entry
/// that cannot be read ends the scan with [`GitError::Scan`].
///
/// The result is, for the answers the closures gave, exactly what
/// [`discovered`] describes.
pub fn discover_repositories<F, G>(
    root: &str,
    max_depth: usize,
    root_exists: bool,
    read_dir: F,
    open_repository: G,
) -> (result: Result<Vec<DiscoveredRepository>, GitError>) where
    F: Fn(&String) -> DirListing,
    G: Fn(&String) -> bool,

    requires
        forall|d: &String| read_dir.requires((d,)),
        forall|q: &String| open_repository.requires((q,)),
    ensures
        exists|t: Seq<Exchange>|
            answers_possible(t, read_dir, open_repository) && #[trigger] discovered(
                root@,
                max_depth as nat,
                root_exists,
                t,
            ) == Some(result_view(result)),
{
    if !root_exists || max_depth == 0 {
        let result: Result<Vec<DiscoveredRepository>, GitError> = Ok(Vec::new());
        proof {
            let t = Seq::<Exchange>::empty();
            assert(views(Seq::<DiscoveredRepository>::empty()) =~= Seq::<RepoView>::empty());
            assert(discovered(root@, max_depth as nat, root_exists, t) == Some(result_view(result)));
        }
        return result;
    }
    let root_dir = root.to_owned();
    let relative = String::new();
    let mut found: Vec<DiscoveredRepository> = Vec::new();
    let (walked, Ghost(t)) = walk(
        &root_dir,
        &relative,
        max_depth,
        &mut found,
        &read_dir,
        &open_repository,
        Ghost(Seq::empty()),
    );
    proof {
        assert(found@.skip(0) =~= found@);
    }
    match walked {
        Err(e) => {
            let result: Result<Vec<DiscoveredRepository>, GitError> = Err(e);
            proof {
                assert(discovered(root@, max_depth as nat, root_exists, t) == Some(result_view(result)));
            }
            result
        },
        Ok(()) => {
            let sorted = sort_repositories(found);
            let result: Result<Vec<DiscoveredRepository>, GitError> = Ok(sorted);
            proof {
                assert(discovered(root@, max_depth as nat, root_exists, t) == Some(result_view(result)));
            }
            result
        },
    }
}

/// Inserting by slug adds exactly the inserted element.
proof fn lemma_insert_by_slug_multiset(s: Seq<RepoView>, x: RepoView)
    ensures
        insert_by_slug(s, x).to_multiset() == s.to_multiset().insert(x),
    decreases s.len(),
{
    broadcast use vstd::seq_lib::group_to_multiset_ensures;
    broadcast use vstd::multiset::group_multiset_axioms;

    if s.len() == 0 {
        assert(seq![x] =~= s.push(x));
    } else if seq_lt(x.slug, s[0].slug) {
        vstd::seq_lib::lemma_multiset_commutative(seq![x], s);
        vstd::seq_lib::lemma_multiset_commutative(s, seq![x]);
        assert(s.push(x) =~= s + seq![x]);
        assert(s.to_multiset().add(seq![x].to_multiset()) =~= seq![x].to_multiset().add(s.to_multiset()));
    } else {
        let tail = s.drop_first();
        lemma_insert_by_slug_multiset(tail, x);
        vstd::seq_lib::lemma_multiset_commutative(seq![s[0]], insert_by_slug(tail, x));
        vstd::seq_lib::lemma_multiset_commutative(seq![s[0]], tail);
        assert(seq![s[0]] + tail =~= s);
        assert(seq![s[0]].to_multiset().add(tail.to_multiset().insert(x)) =~= seq![s[0]].to_multiset().add(
            tail.to_multiset(),
        ).insert(x));
    }
}

/// Every element of an insertion is the inserted element or came from `s`.
proof fn lemma_insert_by_slug_contents(s: Seq<RepoView>, x: RepoView)
    ensures
        insert_by_slug(s, x).len() == s.len() + 1,
        forall|i: int|
            0 <= i < insert_by_slug(s, x).len() ==> #[trigger] insert_by_slug(s, x)[i] == x || s.contains(
                insert_by_slug(s, x)[i],
            ),
    decreases s.len(),
{
    if s.len() > 0 && !seq_lt(x.slug, s[0].slug) {
        let tail = s.drop_first();
        lemma_insert_by_slug_contents(tail, x);
        let r = insert_by_slug(s, x);
        assert forall|i: int| 0 <= i < r.len() implies #[trigger] r[i] == x || s.contains(r[i]) by {
            if i == 0 {
                assert(s[0] == r[0]);
            } else {
                let y = insert_by_slug(tail, x)[i - 1];
                assert(r[i] == y);
                if y != x {
                    let k = choose|k: int| 0 <= k < tail.len() && tail[k] == y;
                    assert(s[k + 1] == y);
                }
            }
        }
    } else if s.len() > 0 {
        let r = insert_by_slug(s, x);
        assert forall|i: int| 0 <= i < r.len() implies #[trigger] r[i] == x || s.contains(r[i]) by {
            if i > 0 {
                assert(r[i] == s[i - 1]);
            }
        }
    }
}

/// Inserting by slug into a sequence sorted by slug keeps it sorted.
proof fn lemma_insert_by_slug_sorted(s: Seq<RepoView>, x: RepoView)
    requires
        sorted_by_slug(s),
    ensures
        sorted_by_slug(insert_by_slug(s, x)),
    decreases s.len(),
{
    let r = insert_by_slug(s, x);
    if s.len() == 0 {
    } else if seq_lt(x.slug, s[0].slug) {
        assert forall|i: int, j: int| 0 <= i < j < r.len() implies !seq_lt(#[trigger] r[j].slug, #[trigger] r[i].slug) by {
            if i == 0 {
                assert(r[j] == s[j - 1]);
                if j - 1 > 0 {
                    assert(!seq_lt(s[j - 1].slug, s[0].slug));
                } else {
                    crate::text::lemma_seq_lt_irreflexive(s[0].slug);
                }
                if seq_lt(s[j - 1].slug, x.slug) {
                    crate::text::lemma_seq_lt_transitive(s[j - 1].slug, x.slug, s[0].slug);
                }
            } else {
                assert(r[i] == s[i - 1] && r[j] == s[j - 1]);
            }
        }
    } else {
        let tail = s.drop_first();
        assert(sorted_by_slug(tail)) by {
            assert forall|i: int, j: int| 0 <= i < j < tail.len() implies !seq_lt(#[trigger] tail[j].slug, #[trigger] tail[i].slug) by {
                assert(tail[i] == s[i + 1] && tail[j] == s[j + 1]);
            }
        }
        lemma_insert_by_slug_sorted(tail, x);
        lemma_insert_by_slug_contents(tail, x);
        let rt = insert_by_slug(tail, x);
        assert forall|i: int, j: int| 0 <= i < j < r.len() implies !seq_lt(#[trigger] r[j].slug, #[trigger] r[i].slug) by {
            if i == 0 {
                let y = rt[j - 1];
                assert(r[j] == y);
                if y != x {
                    let k = choose|k: int| 0 <= k < tail.len() && tail[k] == y;
                    assert(s[k + 1] == y);
                }
            } else {
                assert(r[i] == rt[i - 1] && r[j] == rt[j - 1]);
            }
        }
    }
}

/// Law: sorting by slug yields a sequence whose slugs never decrease.
pub proof fn lemma_sort_by_slug_sorted(s: Seq<RepoView>)
    ensures
        sorted_by_slug(sort_by_slug(s)),
    decreases s.len(),
{
    if s.len() > 0 {
        lemma_sort_by_slug_sorted(s.drop_last());
        lemma_insert_by_slug_sorted(sort_by_slug(s.drop_last()), s.last());
    }
}

/// Law: sorting by slug neither loses nor invents repositories.
pub proof fn lemma_sort_by_slug_permutation(s: Seq<RepoView>)
    ensures
        sort_by_slug(s).to_multiset() == s.to_multiset(),
    decreases s.len(),
{
    broadcast use vstd::seq_lib::group_to_multiset_ensures;

    if s.len() > 0 {
        lemma_sort_by_slug_permutation(s.drop_last());
        lemma_insert_by_slug_multiset(sort_by_slug(s.drop_last()), s.last());
        assert(s.drop_last().push(s.last()) =~= s);
    }
}

/// Law: the repositories that discovery returns are sorted by slug.
pub proof fn lemma_discovered_sorted(root: Seq<char>, max_depth: nat, root_exists: bool, t: Seq<Exchange>)
    ensures
        discovered(root, max_depth, root_exists, t) matches Some(Ok(found)) ==> sorted_by_slug(found),
{
    if root_exists {
        if let Walk::Found(found, n) = walk_dir(t, 0, Seq::empty(), root, max_depth) {
            lemma_sort_by_slug_sorted(found);
        }
    }
}

/// The number of `/` in `s`.
pub open spec fn slash_count(s: Seq<char>) -> nat
    decreases s.len(),
{
    if s.len() == 0 {
        0
    } else {
        slash_count(s.drop_last()) + if s.last() == '/' {
            1nat
        } else {
            0nat
        }
    }
}

/// How many directory levels below the storage root a relative path is.
pub open spec fn levels(rel: Seq<char>) -> nat {
    if rel.len() == 0 {
        0
    } else {
        slash_count(rel) + 1
    }
}

/// `name` is a single path component: not empty, and holds no `/`.
pub open spec fn is_component(name: Seq<char>) -> bool {
    name.len() > 0 && forall|k: int| 0 <= k < name.len() ==> name[k] != '/'
}

/// Every name in every listing of `t` is a single path component, as
/// directory entries' names are.
pub open spec fn single_component_names(t: Seq<Exchange>) -> bool {
    forall|i: int, j: int|
        #![trigger t[i]->listing->Ok_0@[j]]
        0 <= i < t.len() && t[i] is Listing && t[i]->listing is Ok && 0 <= j < t[i]->listing->Ok_0@.len()
            && t[i]->listing->Ok_0@[j] is Ok ==> is_component(t[i]->listing->Ok_0@[j]->Ok_0.file_name@)
}

/// Every name in `entries` is a single path component.
pub open spec fn component_entries(entries: Seq<Result<DirEntryInfo, std::io::Error>>) -> bool {
    forall|j: int|
        #![trigger entries[j]]
        0 <= j < entries.len() && entries[j] is Ok ==> is_component(entries[j]->Ok_0.file_name@)
}

/// The path of the directory at relative path `rel` below `root`.
pub open spec fn path_at(root: Seq<char>, rel: Seq<char>) -> Seq<char> {
    if rel.len() == 0 {
        root
    } else {
        joined_path(root, rel)
    }
}

/// The repository `r` lies at the relative path `rel` below `root`, between
/// one and `max_depth` levels down, and its slug is `rel` without a
/// trailing `.git`.
pub open spec fn located(root: Seq<char>, max_depth: nat, r: RepoView, rel: Seq<char>) -> bool {
    &&& 1 <= levels(rel) <= max_depth
    &&& r.path == joined_path(root, rel)
    &&& r.slug == slug_of(rel)
}

/// The repository `r` lies below `root`, one to `max_depth` levels down,
/// with its slug read off its relative path (see [`located`]).
pub open spec fn lies_below(root: Seq<char>, max_depth: nat, r: RepoView) -> bool {
    exists|rel: Seq<char>| #[trigger] located(root, max_depth, r, rel)
}

/// A relative path built from single components: empty, or not ending in
/// `/`.
pub open spec fn relative_ok(rel: Seq<char>) -> bool {
    rel.len() == 0 || rel.last() != '/'
}

proof fn lemma_slash_count_concat(a: Seq<char>, b: Seq<char>)
    ensures
        slash_count(a + b) == slash_count(a) + slash_count(b),
    decreases b.len(),
{
    if b.len() == 0 {
        assert(a + b =~= a);
    } else {
        lemma_slash_count_concat(a, b.drop_last());
        assert((a + b).drop_last() =~= a + b.drop_last());
    }
}

proof fn lemma_slash_count_none(s: Seq<char>)
    requires
        forall|k: int| 0 <= k < s.len() ==> s[k] != '/',
    ensures
        slash_count(s) == 0,
    decreases s.len(),
{
    if s.len() > 0 {
        lemma_slash_count_none(s.drop_last());
    }
}

/// Joining a single-component name goes one level down.
proof fn lemma_join_levels(rel: Seq<char>, name: Seq<char>)
    requires
        forall|k: int| 0 <= k < name.len() ==> name[k] != '/',
    ensures
        slash_count(joined_relative(rel, name)) == levels(rel),
        levels(joined_relative(rel, name)) <= levels(rel) + 1,
{
    lemma_slash_count_none(name);
    if rel.len() > 0 {
        lemma_slash_count_concat(rel, seq!['/']);
        lemma_slash_count_concat(rel + seq!['/'], name);
        assert(slash_count(seq!['/']) == 1) by {
            assert(seq!['/'].drop_last() =~= Seq::<char>::empty());
            assert(slash_count(Seq::<char>::empty()) == 0);
            assert(seq!['/'].last() == '/');
        }
    }
}

/// Every element of a sort by slug comes from the sorted sequence.
proof fn lemma_sort_by_slug_elements(s: Seq<RepoView>)
    ensures
        forall|i: int| 0 <= i < sort_by_slug(s).len() ==> s.contains(#[trigger] sort_by_slug(s)[i]),
        sort_by_slug(s).len() == s.len(),
    decreases s.len(),
{
    if s.len() > 0 {
        let init = s.drop_last();
        lemma_sort_by_slug_elements(init);
        lemma_insert_by_slug_contents(sort_by_slug(init), s.last());
        let r = sort_by_slug(s);
        assert forall|i: int| 0 <= i < r.len() implies s.contains(#[trigger] r[i]) by {
            if r[i] == s.last() {
                assert(s[s.len() - 1] == r[i]);
            } else {
                let k = choose|k: int| 0 <= k < sort_by_slug(init).len() && sort_by_slug(init)[k] == r[i];
                let m = choose|m: int| 0 <= m < init.len() && init[m] == sort_by_slug(init)[k];
                assert(s[m] == r[i]);
            }
        }
    }
}

/// Going into the entry `name` of the directory at `rel` below `root`
/// reaches the directory at the joined relative path, one level further
/// down.
proof fn lemma_path_step(root: Seq<char>, rel: Seq<char>, name: Seq<char>)
    requires
        is_component(name),
        relative_ok(rel),
    ensures
        joined_path(path_at(root, rel), name) == path_at(root, joined_relative(rel, name)),
        relative_ok(joined_relative(rel, name)),
        joined_relative(rel, name).len() > 0,
        levels(joined_relative(rel, name)) == levels(rel) + 1,
{
    lemma_join_levels(rel, name);
    let child = joined_relative(rel, name);
    if rel.len() > 0 {
        let x = joined_path(root, rel);
        assert(x.last() == rel.last());
        assert(child.last() == name.last());
        if root.len() == 0 || root.last() == '/' {
            assert(x + seq!['/'] + name =~= root + child);
        } else {
            assert(x + seq!['/'] + name =~= root + seq!['/'] + child);
        }
    }
}

/// Every repository found walking the directory at `rel` below `root`
/// lies at a relative path at most `depth` levels below `rel`.
proof fn lemma_walk_dir_located(
    t: Seq<Exchange>,
    p: nat,
    root: Seq<char>,
    rel: Seq<char>,
    dir: Seq<char>,
    depth: nat,
    bound: nat,
)
    requires
        single_component_names(t),
        dir == path_at(root, rel),
        relative_ok(rel),
        depth >= 1,
        levels(rel) + depth <= bound,
    ensures
        walk_dir(t, p, rel, dir, depth) matches Walk::Found(a, _) ==> forall|i: int|
            0 <= i < a.len() ==> #[trigger] lies_below(root, bound, a[i]),
    decreases depth, 1nat, 0nat,
{
    if p < t.len() {
        if let Exchange::Listing { dir: d, listing } = t[p as int] {
            if let Ok(entries) = listing {
                assert forall|j: int| 0 <= j < entries@.len() && entries@[j] is Ok implies
                    is_component(#[trigger] entries@[j]->Ok_0.file_name@) by {
                    assert(t[p as int]->listing->Ok_0@[j] == entries@[j]);
                }
                lemma_walk_entries_located(t, p + 1, root, rel, dir, entries@, depth, bound);
            }
        }
    }
}

/// The entry-level counterpart of [`lemma_walk_dir_located`].
proof fn lemma_walk_entries_located(
    t: Seq<Exchange>,
    p: nat,
    root: Seq<char>,
    rel: Seq<char>,
    dir: Seq<char>,
    entries: Seq<Result<DirEntryInfo, std::io::Error>>,
    depth: nat,
    bound: nat,
)
    requires
        single_component_names(t),
        component_entries(entries),
        dir == path_at(root, rel),
        relative_ok(rel),
        depth >= 1,
        levels(rel) + depth <= bound,
    ensures
        walk_entries(t, p, rel, dir, entries, depth) matches Walk::Found(a, _) ==> forall|i: int|
            0 <= i < a.len() ==> #[trigger] lies_below(root, bound, a[i]),
    decreases depth, 0nat, entries.len(),
{
    if entries.len() > 0 {
        let rest = entries.drop_first();
        assert forall|j: int| 0 <= j < rest.len() && rest[j] is Ok implies
            is_component(#[trigger] rest[j]->Ok_0.file_name@) by {
            assert(rest[j] == entries[j + 1]);
        }
        if let Ok(info) = entries[0] {
            assert(is_component(entries[0]->Ok_0.file_name@));
            if !info.is_dir {
                lemma_walk_entries_located(t, p, root, rel, dir, rest, depth, bound);
            } else {
                let name = info.file_name@;
                let child = joined_relative(rel, name);
                let path = joined_path(dir, name);
                lemma_path_step(root, rel, name);
                let candidate = is_git_extension(name) || info.has_dot_git;
                if candidate && open_answer(t, p, path) == Some(true) {
                    lemma_walk_entries_located(t, p + 1, root, rel, dir, rest, depth, bound);
                    if let Walk::Found(b, q) = walk_entries(t, p + 1, rel, dir, rest, depth) {
                        let r0 = repo_of(info, dir, child);
                        let a = seq![r0] + b;
                        assert forall|i: int| 0 <= i < a.len() implies #[trigger] lies_below(root, bound, a[i]) by {
                            if i > 0 {
                                assert(a[i] == b[i - 1]);
                            } else {
                                assert(a[0] == r0);
                                assert(located(root, bound, r0, child));
                            }
                        }
                        assert(walk_entries(t, p, rel, dir, entries, depth) == Walk::Found(a, q));
                    }
                } else if !(candidate && open_answer(t, p, path) is None) {
                    let q: nat = if candidate { p + 1 } else { p };
                    if depth > 1 {
                        lemma_walk_dir_located(t, q, root, child, path, (depth - 1) as nat, bound);
                        if let Walk::Found(a, q2) = walk_dir(t, q, child, path, (depth - 1) as nat) {
                            lemma_walk_entries_located(t, q2, root, rel, dir, rest, depth, bound);
                            if let Walk::Found(b, q3) = walk_entries(t, q2, rel, dir, rest, depth) {
                                let ab = a + b;
                                assert forall|i: int| 0 <= i < ab.len() implies #[trigger] lies_below(root, bound, ab[i]) by {
                                    if i < a.len() {
                                        assert(ab[i] == a[i]);
                                    } else {
                                        assert(ab[i] == b[i - a.len()]);
                                    }
                                }
                            }
                        }
                    } else {
                        lemma_walk_entries_located(t, q, root, rel, dir, rest, depth, bound);
                    }
                }
            }
        }
    }
}

/// Law: every repository that discovery returns lies below the storage
/// root at a relative path of one to `max_depth` levels: its path is the
/// root joined with that relative path, and its slug is the relative path
/// without a trailing `.git` (with directory entry names being single path
/// components, as a file system gives them).
pub proof fn lemma_discovered_located(root: Seq<char>, max_depth: nat, root_exists: bool, t: Seq<Exchange>)
    requires
        single_component_names(t),
    ensures
        discovered(root, max_depth, root_exists, t) matches Some(Ok(found)) ==> forall|i: int|
            0 <= i < found.len() ==> #[trigger] lies_below(root, max_depth, found[i]),
{
    if root_exists && max_depth > 0 {
        lemma_walk_dir_located(t, 0, root, Seq::empty(), root, max_depth, max_depth);
        if let Walk::Found(found, n) = walk_dir(t, 0, Seq::empty(), root, max_depth) {
            lemma_sort_by_slug_elements(found);
            let sorted = sort_by_slug(found);
            assert forall|i: int| 0 <= i < sorted.len() implies #[trigger] lies_below(root, max_depth, sorted[i]) by {
                let m = choose|m: int| 0 <= m < found.len() && found[m] == sorted[i];
                assert(lies_below(root, max_depth, found[m]));
            }
        }
    }
}

/// The path `b` lies strictly below the directory at path `a`.
pub open spec fn nested_in(a: Seq<char>, b: Seq<char>) -> bool {
    &&& b.len() > a.len()
    &&& b.take(a.len() as int) == a
    &&& b[a.len() as int] == '/'
}

/// Two paths name different places, neither inside the other.
pub open spec fn apart(x: Seq<char>, y: Seq<char>) -> bool {
    x != y && !nested_in(x, y) && !nested_in(y, x)
}

/// The paths of the repositories in `s` are pairwise apart.
pub open spec fn pairwise_apart(s: Seq<RepoView>) -> bool {
    forall|i: int, j: int| 0 <= i < j < s.len() ==> apart(#[trigger] s[i].path, #[trigger] s[j].path)
}

/// Within each listing of `t`, no two entries have the same name, as in a
/// directory.
pub open spec fn distinct_names(t: Seq<Exchange>) -> bool {
    forall|i: int, j: int, k: int|
        #![trigger t[i]->listing->Ok_0@[j], t[i]->listing->Ok_0@[k]]
        0 <= i < t.len() && t[i] is Listing && t[i]->listing is Ok && 0 <= j < t[i]->listing->Ok_0@.len()
            && 0 <= k < t[i]->listing->Ok_0@.len() && j != k && t[i]->listing->Ok_0@[j] is Ok
            && t[i]->listing->Ok_0@[k] is Ok ==> t[i]->listing->Ok_0@[j]->Ok_0.file_name@
            != t[i]->listing->Ok_0@[k]->Ok_0.file_name@
}

/// No two entries of `entries` have the same name.
pub open spec fn distinct_entries(entries: Seq<Result<DirEntryInfo, std::io::Error>>) -> bool {
    forall|j: int, k: int|
        #![trigger entries[j], entries[k]]
        0 <= j < entries.len() && 0 <= k < entries.len() && j != k && entries[j] is Ok && entries[k] is Ok
            ==> entries[j]->Ok_0.file_name@ != entries[k]->Ok_0.file_name@
}

/// What goes in front of an entry's name to make its path in `dir`.
pub open spec fn dir_prefix(dir: Seq<char>) -> Seq<char> {
    if dir.len() == 0 || dir.last() == '/' {
        dir
    } else {
        dir + seq!['/']
    }
}

/// `x` is the path `d + name` or lies below it.
pub open spec fn in_branch(d: Seq<char>, name: Seq<char>, x: Seq<char>) -> bool {
    &&& x.len() >= d.len() + name.len()
    &&& x.take((d.len() + name.len()) as int) == d + name
    &&& (x.len() == d.len() + name.len() || x[(d.len() + name.len()) as int] == '/')
}

/// `x` is in the branch of one of `entries`.
pub open spec fn in_some_branch(d: Seq<char>, entries: Seq<Result<DirEntryInfo, std::io::Error>>, x: Seq<char>) -> bool {
    exists|j: int| 0 <= j < entries.len() && entries[j] is Ok && #[trigger] in_branch(d, entries[j]->Ok_0.file_name@, x)
}

/// When a path in the branch of one single component is a prefix, at a
/// component boundary, of a path in the branch of another, the two
/// components are the same.
proof fn lemma_branches_prefix(d: Seq<char>, n1: Seq<char>, n2: Seq<char>, x: Seq<char>, y: Seq<char>)
    requires
        is_component(n1),
        is_component(n2),
        in_branch(d, n1, x),
        in_branch(d, n2, y),
        y.len() >= x.len(),
        y.take(x.len() as int) == x,
        y.len() == x.len() || y[x.len() as int] == '/',
    ensures
        n1 == n2,
{
    let l = d.len() as int;
    let m1 = n1.len() as int;
    let m2 = n2.len() as int;
    assert forall|k: int| 0 <= k < m1 && k < m2 implies n1[k] == n2[k] by {
        assert(x.take(l + m1)[l + k] == (d + n1)[l + k]);
        assert(y.take(l + m2)[l + k] == (d + n2)[l + k]);
        assert(y.take(x.len() as int)[l + k] == x[l + k]);
    }
    if m1 < m2 {
        assert(y.take(l + m2)[l + m1] == (d + n2)[l + m1]);
        if x.len() == l + m1 {
            assert(y[x.len() as int] == n2[m1]);
        } else {
            assert(y.take(x.len() as int)[l + m1] == x[l + m1]);
        }
    } else if m1 > m2 {
        assert(x.take(l + m1)[l + m2] == (d + n1)[l + m2]);
        assert(y.take(x.len() as int)[l + m2] == x[l + m2]);
    } else {
        assert(n1 =~= n2);
    }
}

/// Paths in the branches of two different single components are apart.
proof fn lemma_branches_apart(d: Seq<char>, n1: Seq<char>, n2: Seq<char>, x: Seq<char>, y: Seq<char>)
    requires
        is_component(n1),
        is_component(n2),
        n1 != n2,
        in_branch(d, n1, x),
        in_branch(d, n2, y),
    ensures
        apart(x, y),
{
    if x == y {
        assert(y.take(x.len() as int) =~= x);
        lemma_branches_prefix(d, n1, n2, x, y);
    }
    if nested_in(x, y) {
        lemma_branches_prefix(d, n1, n2, x, y);
    }
    if nested_in(y, x) {
        lemma_branches_prefix(d, n2, n1, y, x);
    }
}

/// Pairwise apart sequences whose elements are apart across stay apart when
/// concatenated.
proof fn lemma_apart_concat(a: Seq<RepoView>, b: Seq<RepoView>)
    requires
        pairwise_apart(a),
        pairwise_apart(b),
        forall|i: int, j: int| 0 <= i < a.len() && 0 <= j < b.len() ==> apart(#[trigger] a[i].path, #[trigger] b[j].path),
    ensures
        pairwise_apart(a + b),
{
    let ab = a + b;
    assert forall|i: int, j: int| 0 <= i < j < ab.len() implies apart(#[trigger] ab[i].path, #[trigger] ab[j].path) by {
        if j < a.len() {
            assert(ab[i] == a[i] && ab[j] == a[j]);
        } else if i >= a.len() {
            assert(ab[i] == b[i - a.len()] && ab[j] == b[j - a.len()]);
        } else {
            assert(ab[i] == a[i] && ab[j] == b[j - a.len()]);
        }
    }
}

/// Every repository found walking `dir` lies below it, and their paths are
/// pairwise apart.
proof fn lemma_walk_dir_apart(t: Seq<Exchange>, p: nat, rel: Seq<char>, dir: Seq<char>, depth: nat)
    requires
        single_component_names(t),
        distinct_names(t),
    ensures
        walk_dir(t, p, rel, dir, depth) matches Walk::Found(a, _) ==> {
            &&& pairwise_apart(a)
            &&& forall|i: int| 0 <= i < a.len() ==> #[trigger] a[i].path.len() > dir_prefix(dir).len()
                && a[i].path.take(dir_prefix(dir).len() as int) == dir_prefix(dir)
        },
    decreases depth, 1nat, 0nat,
{
    if p < t.len() {
        if let Exchange::Listing { dir: d, listing } = t[p as int] {
            if let Ok(entries) = listing {
                let es = entries@;
                assert forall|j: int| 0 <= j < es.len() && es[j] is Ok implies
                    is_component(#[trigger] es[j]->Ok_0.file_name@) by {
                    assert(t[p as int]->listing->Ok_0@[j] == es[j]);
                }
                assert forall|j: int, k: int|
                    0 <= j < es.len() && 0 <= k < es.len() && j != k && #[trigger] es[j] is Ok && #[trigger] es[k] is Ok
                        implies es[j]->Ok_0.file_name@ != es[k]->Ok_0.file_name@ by {
                    assert(t[p as int]->listing->Ok_0@[j] == es[j]);
                    assert(t[p as int]->listing->Ok_0@[k] == es[k]);
                }
                lemma_walk_entries_apart(t, p + 1, rel, dir, es, depth);
                if let Walk::Found(a, _) = walk_entries(t, p + 1, rel, dir, es, depth) {
                    let pre = dir_prefix(dir);
                    assert forall|i: int| 0 <= i < a.len() implies #[trigger] a[i].path.len() > pre.len()
                        && a[i].path.take(pre.len() as int) == pre by {
                        assert(in_some_branch(pre, es, a[i].path));
                        let j = choose|j: int| 0 <= j < es.len() && es[j] is Ok
                            && #[trigger] in_branch(pre, es[j]->Ok_0.file_name@, a[i].path);
                        let n = es[j]->Ok_0.file_name@;
                        assert(a[i].path.take((pre.len() + n.len()) as int).take(pre.len() as int) =~= a[i].path.take(pre.len() as int));
                        assert((pre + n).take(pre.len() as int) =~= pre);
                    }
                }
            }
        }
    }
}

/// The entry-level counterpart of [`lemma_walk_dir_apart`]: each
/// repository found lies in the branch of one of the entries.
proof fn lemma_walk_entries_apart(
    t: Seq<Exchange>,
    p: nat,
    rel: Seq<char>,
    dir: Seq<char>,
    entries: Seq<Result<DirEntryInfo, std::io::Error>>,
    depth: nat,
)
    requires
        single_component_names(t),
        distinct_names(t),
        component_entries(entries),
        distinct_entries(entries),
    ensures
        walk_entries(t, p, rel, dir, entries, depth) matches Walk::Found(a, _) ==> {
            &&& pairwise_apart(a)
            &&& forall|i: int| 0 <= i < a.len() ==> #[trigger] in_some_branch(dir_prefix(dir), entries, a[i].path)
        },
    decreases depth, 0nat, entries.len(),
{
    if entries.len() > 0 {
        let pre = dir_prefix(dir);
        let rest = entries.drop_first();
        assert forall|j: int| 0 <= j < rest.len() && rest[j] is Ok implies
            is_component(#[trigger] rest[j]->Ok_0.file_name@) by {
            assert(rest[j] == entries[j + 1]);
        }
        assert forall|j: int, k: int|
            0 <= j < rest.len() && 0 <= k < rest.len() && j != k && #[trigger] rest[j] is Ok && #[trigger] rest[k] is Ok
                implies rest[j]->Ok_0.file_name@ != rest[k]->Ok_0.file_name@ by {
            assert(rest[j] == entries[j + 1]);
            assert(rest[k] == entries[k + 1]);
        }
        if let Ok(info) = entries[0] {
            let name = info.file_name@;
            assert(is_component(entries[0]->Ok_0.file_name@));
            // Repositories found in the rest lie in other branches.
            assert forall|x: Seq<char>| #[trigger] in_some_branch(pre, rest, x) implies in_some_branch(pre, entries, x)
                && (forall|y: Seq<char>| in_branch(pre, name, y) ==> apart(y, x)) by {
                let j = choose|j: int| 0 <= j < rest.len() && rest[j] is Ok && #[trigger] in_branch(pre, rest[j]->Ok_0.file_name@, x);
                assert(rest[j] == entries[j + 1]);
                assert(in_branch(pre, entries[j + 1]->Ok_0.file_name@, x));
                assert(entries[0] is Ok && entries[j + 1] is Ok);
                assert(entries[0]->Ok_0.file_name@ != entries[j + 1]->Ok_0.file_name@);
                assert forall|y: Seq<char>| in_branch(pre, name, y) implies apart(y, x) by {
                    lemma_branches_apart(pre, name, rest[j]->Ok_0.file_name@, y, x);
                }
            }
            assert(joined_path(dir, name) =~= pre + name);
            assert(in_branch(pre, name, pre + name)) by {
                assert((pre + name).take((pre.len() + name.len()) as int) =~= pre + name);
            }
            assert(in_some_branch(pre, entries, pre + name)) by {
                assert(in_branch(pre, entries[0]->Ok_0.file_name@, pre + name));
            }
            if !info.is_dir {
                lemma_walk_entries_apart(t, p, rel, dir, rest, depth);
                if let Walk::Found(b, q) = walk_entries(t, p, rel, dir, rest, depth) {
                    assert forall|i: int| 0 <= i < b.len() implies #[trigger] in_some_branch(pre, entries, b[i].path) by {
                        assert(in_some_branch(pre, rest, b[i].path));
                    }
                }
            } else {
                let child = joined_relative(rel, name);
                let path = joined_path(dir, name);
                let candidate = is_git_extension(name) || info.has_dot_git;
                if candidate && open_answer(t, p, path) == Some(true) {
                    lemma_walk_entries_apart(t, p + 1, rel, dir, rest, depth);
                    if let Walk::Found(b, q) = walk_entries(t, p + 1, rel, dir, rest, depth) {
                        let r0 = repo_of(info, dir, child);
                        let a = seq![r0];
                        assert(pairwise_apart(a));
                        assert forall|i: int, j: int| 0 <= i < a.len() && 0 <= j < b.len() implies apart(
                            #[trigger] a[i].path,
                            #[trigger] b[j].path,
                        ) by {
                            assert(in_some_branch(pre, rest, b[j].path));
                        }
                        lemma_apart_concat(a, b);
                        let ab = a + b;
                        assert forall|i: int| 0 <= i < ab.len() implies #[trigger] in_some_branch(pre, entries, ab[i].path) by {
                            if i > 0 {
                                assert(ab[i] == b[i - 1]);
                                assert(in_some_branch(pre, rest, b[i - 1].path));
                            } else {
                                assert(ab[0].path == pre + name);
                            }
                        }
                        assert(walk_entries(t, p, rel, dir, entries, depth) == Walk::Found(ab, q));
                    }
                } else if !(candidate && open_answer(t, p, path) is None) {
                    let q: nat = if candidate { p + 1 } else { p };
                    if depth > 1 {
                        lemma_walk_dir_apart(t, q, child, path, (depth - 1) as nat);
                        if let Walk::Found(a, q2) = walk_dir(t, q, child, path, (depth - 1) as nat) {
                            lemma_walk_entries_apart(t, q2, rel, dir, rest, depth);
                            assert(path.len() > 0 && path.last() == name.last());
                            assert(dir_prefix(path) == path + seq!['/']);
                            assert forall|i: int| 0 <= i < a.len() implies #[trigger] in_branch(pre, name, a[i].path) by {
                                let x = a[i].path;
                                assert(x.take((path.len() + 1) as int) == path + seq!['/']);
                                assert(x.take(path.len() as int) =~= x.take((path.len() + 1) as int).take(path.len() as int));
                                assert((path + seq!['/']).take(path.len() as int) =~= path);
                                assert(x[path.len() as int] == x.take((path.len() + 1) as int)[path.len() as int]);
                            }
                            if let Walk::Found(b, q3) = walk_entries(t, q2, rel, dir, rest, depth) {
                                assert forall|i: int, j: int| 0 <= i < a.len() && 0 <= j < b.len() implies apart(
                                    #[trigger] a[i].path,
                                    #[trigger] b[j].path,
                                ) by {
                                    assert(in_branch(pre, name, a[i].path));
                                    assert(in_some_branch(pre, rest, b[j].path));
                                }
                                lemma_apart_concat(a, b);
                                let ab = a + b;
                                assert forall|i: int| 0 <= i < ab.len() implies #[trigger] in_some_branch(pre, entries, ab[i].path) by {
                                    if i < a.len() {
                                        assert(ab[i] == a[i]);
                                        assert(in_branch(pre, entries[0]->Ok_0.file_name@, a[i].path));
                                    } else {
                                        assert(ab[i] == b[i - a.len()]);
                                        assert(in_some_branch(pre, rest, b[i - a.len()].path));
                                    }
                                }
                                assert(walk_entries(t, p, rel, dir, entries, depth) == Walk::Found(ab, q3));
                            }
                        }
                    } else {
                        lemma_walk_entries_apart(t, q, rel, dir, rest, depth);
                        if let Walk::Found(b, q3) = walk_entries(t, q, rel, dir, rest, depth) {
                            assert forall|i: int| 0 <= i < b.len() implies #[trigger] in_some_branch(pre, entries, b[i].path) by {
                                assert(in_some_branch(pre, rest, b[i].path));
                            }
                        }
                    }
                }
            }
        }
    }
}

/// Law: the repositories that discovery returns are at different paths,
/// and none lies inside another: a repository's own subdirectories are not
/// scanned (with directory entry names being single path components,
/// distinct within each directory, as a file system gives them).
pub proof fn lemma_discovered_apart(root: Seq<char>, max_depth: nat, root_exists: bool, t: Seq<Exchange>)
    requires
        single_component_names(t),
        distinct_names(t),
    ensures
        discovered(root, max_depth, root_exists, t) matches Some(Ok(found)) ==> forall|i: int, j: int|
            0 <= i < found.len() && 0 <= j < found.len() && i != j ==> apart(#[trigger] found[i].path, #[trigger] found[j].path),
{
    if root_exists && max_depth > 0 {
        lemma_walk_dir_apart(t, 0, Seq::empty(), root, max_depth);
        if let Walk::Found(a, n) = walk_dir(t, 0, Seq::empty(), root, max_depth) {
            let sorted = sort_by_slug(a);
            assert(a.no_duplicates()) by {
                assert forall|i: int, j: int| 0 <= i < a.len() && 0 <= j < a.len() && i != j implies a[i] != a[j] by {
                    if i < j {
                        assert(apart(a[i].path, a[j].path));
                    } else {
                        assert(apart(a[j].path, a[i].path));
                    }
                }
            }
            a.lemma_multiset_has_no_duplicates();
            lemma_sort_by_slug_permutation(a);
            sorted.lemma_multiset_has_no_duplicates_conv();
            lemma_sort_by_slug_elements(a);
            assert forall|i: int, j: int| 0 <= i < sorted.len() && 0 <= j < sorted.len() && i != j implies apart(
                #[trigger] sorted[i].path,
                #[trigger] sorted[j].path,
            ) by {
                let m = choose|m: int| 0 <= m < a.len() && a[m] == sorted[i];
                let k = choose|k: int| 0 <= k < a.len() && a[k] == sorted[j];
                assert(sorted[i] != sorted[j]);
                if m < k {
                    assert(apart(a[m].path, a[k].path));
                } else {
                    assert(apart(a[k].path, a[m].path));
                }
            }
        }
    }
}

/// Some repository in `a` is at `path`.
pub open spec fn has_path(a: Seq<RepoView>, path: Seq<char>) -> bool {
    exists|k: int| 0 <= k < a.len() && #[trigger] a[k].path == path
}

/// Between positions `p` and `e` of `t`, the walk asked whether `path`
/// opens as a repository.
pub open spec fn asked(t: Seq<Exchange>, p: int, e: int, path: Seq<char>) -> bool {
    exists|q: int| p <= q < e && #[trigger] t[q] is Opened && t[q]->path@ == path
}

/// A directory entry that may be a repository: its name has the extension
/// `git`, or it holds a `.git` directory.
pub open spec fn is_candidate(info: DirEntryInfo) -> bool {
    info.is_dir && (is_git_extension(info.file_name@) || info.has_dot_git)
}

/// Every directory that the answers between `p` and `e` say opens is
/// among `a`.
pub open spec fn opens_found(t: Seq<Exchange>, p: int, e: int, a: Seq<RepoView>) -> bool {
    forall|q: int| p <= q < e && #[trigger] t[q] is Opened && t[q]->opened ==> has_path(a, t[q]->path@)
}

/// Every candidate entry of every listing between `p` and `e` was asked
/// about between `p` and `e`.
pub open spec fn candidates_asked(t: Seq<Exchange>, p: int, e: int) -> bool {
    forall|i: int, j: int|
        #![trigger t[i]->listing->Ok_0@[j]]
        p <= i < e && t[i] is Listing && t[i]->listing is Ok && 0 <= j < t[i]->listing->Ok_0@.len()
            && t[i]->listing->Ok_0@[j] is Ok && is_candidate(t[i]->listing->Ok_0@[j]->Ok_0) ==> asked(
            t,
            p,
            e,
            joined_path(t[i]->dir@, t[i]->listing->Ok_0@[j]->Ok_0.file_name@),
        )
}

/// Every candidate among `entries` of the directory `dir` was asked about
/// between `p` and `e`.
pub open spec fn entries_asked(
    t: Seq<Exchange>,
    p: int,
    e: int,
    dir: Seq<char>,
    entries: Seq<Result<DirEntryInfo, std::io::Error>>,
) -> bool {
    forall|j: int|
        #![trigger entries[j]]
        0 <= j < entries.len() && entries[j] is Ok && is_candidate(entries[j]->Ok_0) ==> asked(
            t,
            p,
            e,
            joined_path(dir, entries[j]->Ok_0.file_name@),
        )
}

/// A walk that found `a` between `p` and `e` also covers any wider window
/// and any longer result around `a`.
proof fn lemma_window_widen(t: Seq<Exchange>, p: int, e: int, p2: int, e2: int, a: Seq<RepoView>, x: Seq<RepoView>, y: Seq<RepoView>)
    requires
        p2 <= p,
        e <= e2,
    ensures
        opens_found(t, p, e, a) ==> opens_found(t, p, e, x + a + y),
        forall|path: Seq<char>| #[trigger] asked(t, p, e, path) ==> asked(t, p2, e2, path),
{
    let xay = x + a + y;
    if opens_found(t, p, e, a) {
        assert forall|q: int| p <= q < e && #[trigger] t[q] is Opened && t[q]->opened implies has_path(xay, t[q]->path@) by {
            let k = choose|k: int| 0 <= k < a.len() && #[trigger] a[k].path == t[q]->path@;
            assert(xay[x.len() + k] == a[k]);
        }
    }
    assert forall|path: Seq<char>| #[trigger] asked(t, p, e, path) implies asked(t, p2, e2, path) by {
        let q = choose|q: int| p <= q < e && #[trigger] t[q] is Opened && t[q]->path@ == path;
        assert(t[q] is Opened);
    }
}

/// A walk of the directory at position `p` that ends at `e` finds every
/// directory it was told opens, and asks about every candidate of every
/// listing it read.
proof fn lemma_walk_dir_complete(t: Seq<Exchange>, p: nat, rel: Seq<char>, dir: Seq<char>, depth: nat)
    ensures
        walk_dir(t, p, rel, dir, depth) matches Walk::Found(a, e) ==> {
            &&& p < e <= t.len()
            &&& opens_found(t, p as int, e as int, a)
            &&& candidates_asked(t, p as int, e as int)
        },
    decreases depth, 1nat, 0nat,
{
    if p < t.len() {
        if let Exchange::Listing { dir: d, listing } = t[p as int] {
            if let Ok(entries) = listing {
                let es = entries@;
                lemma_walk_entries_complete(t, p + 1, rel, dir, es, depth);
                if d@ != dir {
                } else if let Walk::Found(a, e) = walk_entries(t, p + 1, rel, dir, es, depth) {
                    lemma_window_widen(t, (p + 1) as int, e as int, p as int, e as int, a, Seq::empty(), Seq::empty());
                    assert(Seq::<RepoView>::empty() + a + Seq::<RepoView>::empty() =~= a);
                    assert forall|q: int| p <= q < e && #[trigger] t[q] is Opened && t[q]->opened implies has_path(a, t[q]->path@) by {
                        assert(q != p);
                    }
                    assert forall|i: int, j: int|
                        p <= i < e && t[i] is Listing && t[i]->listing is Ok && 0 <= j < t[i]->listing->Ok_0@.len()
                            && #[trigger] t[i]->listing->Ok_0@[j] is Ok && is_candidate(t[i]->listing->Ok_0@[j]->Ok_0)
                        implies asked(t, p as int, e as int, joined_path(t[i]->dir@, t[i]->listing->Ok_0@[j]->Ok_0.file_name@)) by {
                        if i == p {
                            assert(t[i]->listing->Ok_0@[j] == es[j]);
                            assert(asked(t, (p + 1) as int, e as int, joined_path(dir, es[j]->Ok_0.file_name@)));
                        } else {
                            assert(asked(t, (p + 1) as int, e as int, joined_path(t[i]->dir@, t[i]->listing->Ok_0@[j]->Ok_0.file_name@)));
                        }
                    }
                }
            }
        }
    }
}

/// The entry-level counterpart of [`lemma_walk_dir_complete`]: it also asks
/// about every candidate among `entries`.
proof fn lemma_walk_entries_complete(
    t: Seq<Exchange>,
    p: nat,
    rel: Seq<char>,
    dir: Seq<char>,
    entries: Seq<Result<DirEntryInfo, std::io::Error>>,
    depth: nat,
)
    requires
        p <= t.len(),
    ensures
        walk_entries(t, p, rel, dir, entries, depth) matches Walk::Found(a, e) ==> {
            &&& p <= e <= t.len()
            &&& opens_found(t, p as int, e as int, a)
            &&& candidates_asked(t, p as int, e as int)
            &&& entries_asked(t, p as int, e as int, dir, entries)
        },
    decreases depth, 0nat, entries.len(),
{
    if entries.len() > 0 {
        let rest = entries.drop_first();
        if let Ok(info) = entries[0] {
            let name = info.file_name@;
            let path = joined_path(dir, name);
            let child = joined_relative(rel, name);
            let candidate = is_git_extension(name) || info.has_dot_git;
            assert(entries[0]->Ok_0 == info);
            if !info.is_dir {
                lemma_walk_entries_complete(t, p, rel, dir, rest, depth);
                if let Walk::Found(b, e) = walk_entries(t, p, rel, dir, rest, depth) {
                    assert forall|j: int|
                        0 <= j < entries.len() && #[trigger] entries[j] is Ok && is_candidate(entries[j]->Ok_0)
                        implies asked(t, p as int, e as int, joined_path(dir, entries[j]->Ok_0.file_name@)) by {
                        assert(j > 0);
                        assert(entries[j] == rest[j - 1]);
                    }
                }
            } else if candidate && open_answer(t, p, path) == Some(true) {
                assert(t[p as int] is Opened && t[p as int]->path@ == path && t[p as int]->opened);
                lemma_walk_entries_complete(t, p + 1, rel, dir, rest, depth);
                if let Walk::Found(b, e) = walk_entries(t, p + 1, rel, dir, rest, depth) {
                    let r0 = repo_of(info, dir, child);
                    let a = seq![r0] + b;
                    lemma_window_widen(t, (p + 1) as int, e as int, p as int, e as int, b, seq![r0], Seq::empty());
                    assert(seq![r0] + b + Seq::<RepoView>::empty() =~= a);
                    assert(walk_entries(t, p, rel, dir, entries, depth) == Walk::Found(a, e));
                    assert forall|q: int| p <= q < e && #[trigger] t[q] is Opened && t[q]->opened implies has_path(a, t[q]->path@) by {
                        if q == p {
                            assert(a[0].path == path);
                        }
                    }
                    assert forall|i: int, j: int|
                        p <= i < e && t[i] is Listing && t[i]->listing is Ok && 0 <= j < t[i]->listing->Ok_0@.len()
                            && #[trigger] t[i]->listing->Ok_0@[j] is Ok && is_candidate(t[i]->listing->Ok_0@[j]->Ok_0)
                        implies asked(t, p as int, e as int, joined_path(t[i]->dir@, t[i]->listing->Ok_0@[j]->Ok_0.file_name@)) by {
                        assert(i != p);
                        assert(asked(t, (p + 1) as int, e as int, joined_path(t[i]->dir@, t[i]->listing->Ok_0@[j]->Ok_0.file_name@)));
                    }
                    assert forall|j: int|
                        0 <= j < entries.len() && #[trigger] entries[j] is Ok && is_candidate(entries[j]->Ok_0)
                        implies asked(t, p as int, e as int, joined_path(dir, entries[j]->Ok_0.file_name@)) by {
                        if j == 0 {
                            assert(t[p as int] is Opened);
                        } else {
                            assert(entries[j] == rest[j - 1]);
                            assert(asked(t, (p + 1) as int, e as int, joined_path(dir, rest[j - 1]->Ok_0.file_name@)));
                        }
                    }
                }
            } else if !(candidate && open_answer(t, p, path) is None) {
                let q0: nat = if candidate { p + 1 } else { p };
                if candidate {
                    assert(t[p as int] is Opened && t[p as int]->path@ == path && !t[p as int]->opened);
                }
                if depth > 1 {
                    lemma_walk_dir_complete(t, q0, child, path, (depth - 1) as nat);
                    if let Walk::Found(a1, q2) = walk_dir(t, q0, child, path, (depth - 1) as nat) {
                        lemma_walk_entries_complete(t, q2, rel, dir, rest, depth);
                        if let Walk::Found(b, e) = walk_entries(t, q2, rel, dir, rest, depth) {
                            let ab = a1 + b;
                            lemma_window_widen(t, q0 as int, q2 as int, p as int, e as int, a1, Seq::empty(), b);
                            lemma_window_widen(t, q2 as int, e as int, p as int, e as int, b, a1, Seq::empty());
                            assert(Seq::<RepoView>::empty() + a1 + b =~= ab);
                            assert(a1 + b + Seq::<RepoView>::empty() =~= ab);
                            assert(walk_entries(t, p, rel, dir, entries, depth) == Walk::Found(ab, e));
                            assert forall|q: int| p <= q < e && #[trigger] t[q] is Opened && t[q]->opened implies has_path(ab, t[q]->path@) by {
                                if q < q0 {
                                    assert(q == p);
                                }
                            }
                            assert forall|i: int, j: int|
                                p <= i < e && t[i] is Listing && t[i]->listing is Ok && 0 <= j < t[i]->listing->Ok_0@.len()
                                    && #[trigger] t[i]->listing->Ok_0@[j] is Ok && is_candidate(t[i]->listing->Ok_0@[j]->Ok_0)
                                implies asked(t, p as int, e as int, joined_path(t[i]->dir@, t[i]->listing->Ok_0@[j]->Ok_0.file_name@)) by {
                                let pj = joined_path(t[i]->dir@, t[i]->listing->Ok_0@[j]->Ok_0.file_name@);
                                if i < q0 {
                                    assert(i == p);
                                } else if i < q2 {
                                    assert(asked(t, q0 as int, q2 as int, pj));
                                } else {
                                    assert(asked(t, q2 as int, e as int, pj));
                                }
                            }
                            assert forall|j: int|
                                0 <= j < entries.len() && #[trigger] entries[j] is Ok && is_candidate(entries[j]->Ok_0)
                                implies asked(t, p as int, e as int, joined_path(dir, entries[j]->Ok_0.file_name@)) by {
                                if j == 0 {
                                    assert(candidate);
                                    assert(t[p as int] is Opened);
                                } else {
                                    assert(entries[j] == rest[j - 1]);
                                    assert(asked(t, q2 as int, e as int, joined_path(dir, rest[j - 1]->Ok_0.file_name@)));
                                }
                            }
                        }
                    }
                } else {
                    lemma_walk_entries_complete(t, q0, rel, dir, rest, depth);
                    if let Walk::Found(b, e) = walk_entries(t, q0, rel, dir, rest, depth) {
                        lemma_window_widen(t, q0 as int, e as int, p as int, e as int, b, Seq::empty(), Seq::empty());
                        assert(Seq::<RepoView>::empty() + b + Seq::<RepoView>::empty() =~= b);
                        assert(walk_entries(t, p, rel, dir, entries, depth) == Walk::Found(b, e));
                        assert forall|q: int| p <= q < e && #[trigger] t[q] is Opened && t[q]->opened implies has_path(b, t[q]->path@) by {
                            if q < q0 {
                                assert(q == p);
                            }
                        }
                        assert forall|i: int, j: int|
                            p <= i < e && t[i] is Listing && t[i]->listing is Ok && 0 <= j < t[i]->listing->Ok_0@.len()
                                && #[trigger] t[i]->listing->Ok_0@[j] is Ok && is_candidate(t[i]->listing->Ok_0@[j]->Ok_0)
                            implies asked(t, p as int, e as int, joined_path(t[i]->dir@, t[i]->listing->Ok_0@[j]->Ok_0.file_name@)) by {
                            if i < q0 {
                                assert(i == p);
                            } else {
                                assert(asked(t, q0 as int, e as int, joined_path(t[i]->dir@, t[i]->listing->Ok_0@[j]->Ok_0.file_name@)));
                            }
                        }
                        assert forall|j: int|
                            0 <= j < entries.len() && #[trigger] entries[j] is Ok && is_candidate(entries[j]->Ok_0)
                            implies asked(t, p as int, e as int, joined_path(dir, entries[j]->Ok_0.file_name@)) by {
                            if j == 0 {
                                assert(candidate);
                                assert(t[p as int] is Opened);
                            } else {
                                assert(entries[j] == rest[j - 1]);
                                assert(asked(t, q0 as int, e as int, joined_path(dir, rest[j - 1]->Ok_0.file_name@)));
                            }
                        }
                    }
                }
            }
        }
    }
}

/// Law: discovery is complete over the answers it was given: every
/// candidate directory (one whose name has the extension `git`, or that
/// holds a `.git` directory) in every directory the walk read was tried,
/// and every directory that opened is among the repositories returned.
/// Together with the walk's contract, which reads every other directory
/// down to `max_depth` levels, every repository within depth with no
/// repository above it is found.
pub proof fn lemma_discovered_complete(root: Seq<char>, max_depth: nat, root_exists: bool, t: Seq<Exchange>)
    ensures
        discovered(root, max_depth, root_exists, t) matches Some(Ok(found)) ==> {
            &&& forall|q: int| 0 <= q < t.len() && #[trigger] t[q] is Opened && t[q]->opened ==> has_path(found, t[q]->path@)
            &&& candidates_asked(t, 0, t.len() as int)
        },
{
    if root_exists && max_depth > 0 {
        lemma_walk_dir_complete(t, 0, Seq::empty(), root, max_depth);
        if let Walk::Found(a, n) = walk_dir(t, 0, Seq::empty(), root, max_depth) {
            if n == t.len() {
                let sorted = sort_by_slug(a);
                lemma_sort_by_slug_permutation(a);
                assert forall|q: int| 0 <= q < t.len() && #[trigger] t[q] is Opened && t[q]->opened implies has_path(sorted, t[q]->path@) by {
                    broadcast use vstd::seq_lib::group_to_multiset_ensures;
                    assert(has_path(a, t[q]->path@));
                    let k = choose|k: int| 0 <= k < a.len() && #[trigger] a[k].path == t[q]->path@;
                    assert(a.contains(a[k]));
                    assert(a.to_multiset().count(a[k]) > 0);
                    assert(sorted.to_multiset().count(a[k]) > 0);
                    assert(sorted.contains(a[k]));
                    let m = choose|m: int| 0 <= m < sorted.len() && sorted[m] == a[k];
                    assert(sorted[m].path == t[q]->path@);
                }
            }
        }
    }
}

} // verus!
