//! Summaries of a single repository for display: its recent commits, each
//! reduced to an id, a one-line summary and an author.

use vstd::prelude::*;

verus! {

/// A lightweight summary of one commit.
#[derive(Debug, Clone)]
pub struct CommitSummary {
    pub short_id: String,
    pub summary: String,
    pub author_name: String,
}

/// Summary of a repository's current state: default branch, branch count,
/// and the most recent commits reachable from `HEAD`.
#[derive(Debug, Clone)]
pub struct RepositorySummary {
    pub path: String,
    pub default_branch: Option<String>,
    pub branch_count: usize,
    pub recent_commits: Vec<CommitSummary>,
}

/// The index of the first `\n` in `s`, or its length when there is none.
pub open spec fn first_newline(s: Seq<char>) -> nat
    decreases s.len(),
{
    if s.len() == 0 {
        0
    } else if s[0] == '\n' {
        0
    } else {
        1 + first_newline(s.drop_first())
    }
}

/// The first line of `s`, as `str::lines` yields it: the text before the
/// first `\n`, without a `\r` that directly precedes that `\n`; none for
/// an empty string.
pub open spec fn first_line(s: Seq<char>) -> Option<Seq<char>> {
    if s.len() == 0 {
        None
    } else {
        let i = first_newline(s);
        let line = s.take(i as int);
        if i < s.len() && line.len() > 0 && line.last() == '\r' {
            Some(line.drop_last())
        } else {
            Some(line)
        }
    }
}

/// The text shown when a commit has no readable message.
pub open spec fn no_message_text() -> Seq<char> {
    seq!['(', 'n', 'o', ' ', 'c', 'o', 'm', 'm', 'i', 't', ' ', 'm', 'e', 's', 's', 'a', 'g', 'e', ')']
}

/// The author shown when a commit's author cannot be read.
pub open spec fn unknown_author_text() -> Seq<char> {
    seq!['u', 'n', 'k', 'n', 'o', 'w', 'n']
}

/// The summary line for a commit whose raw message is `message` (none when
/// it could not be read as UTF-8).
pub open spec fn summary_text(message: Option<Seq<char>>) -> Seq<char> {
    match message {
        Some(m) => match first_line(m) {
            Some(line) => line,
            None => no_message_text(),
        },
        None => no_message_text(),
    }
}

/// The index found by scanning is the first newline.
proof fn lemma_first_newline_at(s: Seq<char>, i: nat)
    requires
        i <= s.len(),
        forall|j: int| 0 <= j < i ==> s[j] != '\n',
        i == s.len() || s[i as int] == '\n',
    ensures
        first_newline(s) == i,
    decreases i,
{
    if i > 0 {
        let tail = s.drop_first();
        assert forall|j: int| 0 <= j < i - 1 implies tail[j] != '\n' by {
            assert(tail[j] == s[j + 1]);
        }
        if i < s.len() {
            assert(tail[i - 1] == s[i as int]);
        }
        lemma_first_newline_at(tail, (i - 1) as nat);
    }
}

/// What the scan for the first newline finds: no `\n` before it, and a
/// `\n` at it unless it is the end of `s`.
proof fn lemma_first_newline_props(s: Seq<char>)
    ensures
        first_newline(s) <= s.len(),
        forall|j: int| 0 <= j < first_newline(s) ==> s[j] != '\n',
        first_newline(s) == s.len() || s[first_newline(s) as int] == '\n',
    decreases s.len(),
{
    if s.len() > 0 && s[0] != '\n' {
        let tail = s.drop_first();
        lemma_first_newline_props(tail);
        assert forall|j: int| 0 <= j < first_newline(s) implies s[j] != '\n' by {
            if j > 0 {
                assert(s[j] == tail[j - 1]);
            }
        }
        if first_newline(tail) < tail.len() {
            assert(s[first_newline(s) as int] == tail[first_newline(tail) as int]);
        }
    }
}

/// Law: the first line of a text is the whole of its first line. There is
/// one exactly when the text is not empty, and it is the start of the text,
/// holds no line feed, and ends where the text ends, at a `\n` (which it
/// does not end in a `\r` before), or at a `\r\n`. Nothing else cuts it
/// short.
pub proof fn lemma_first_line_is_whole_line(s: Seq<char>)
    ensures
        (first_line(s) is None) == (s.len() == 0),
        first_line(s) matches Some(l) ==> {
            &&& l.len() <= s.len()
            &&& s.take(l.len() as int) == l
            &&& forall|k: int| 0 <= k < l.len() ==> l[k] != '\n'
            &&& {
                ||| l.len() == s.len()
                ||| s[l.len() as int] == '\n' && !(l.len() > 0 && l[l.len() - 1] == '\r')
                ||| l.len() + 1 < s.len() && s[l.len() as int] == '\r' && s[(l.len() + 1) as int] == '\n'
            }
        },
{
    if s.len() > 0 {
        lemma_first_newline_props(s);
        let i = first_newline(s);
        let line = s.take(i as int);
        if i < s.len() && line.len() > 0 && line.last() == '\r' {
            let l = line.drop_last();
            assert(s.take(l.len() as int) =~= l);
            assert(s[l.len() as int] == line.last());
        } else {
            assert(s.take(line.len() as int) =~= line);
        }
    }
}

/// Law: a commit's summary is the whole first line of its message; a
/// message that is missing or empty is summarized as `(no commit message)`.
pub proof fn lemma_summary_is_whole_first_line(s: Seq<char>)
    ensures
        s.len() > 0 ==> {
            let l = summary_text(Some(s));
            &&& l.len() <= s.len()
            &&& s.take(l.len() as int) == l
            &&& forall|k: int| 0 <= k < l.len() ==> l[k] != '\n'
            &&& {
                ||| l.len() == s.len()
                ||| s[l.len() as int] == '\n' && !(l.len() > 0 && l[l.len() - 1] == '\r')
                ||| l.len() + 1 < s.len() && s[l.len() as int] == '\r' && s[(l.len() + 1) as int] == '\n'
            }
        },
        s.len() == 0 ==> summary_text(Some(s)) == seq![
            '(', 'n', 'o', ' ', 'c', 'o', 'm', 'm', 'i', 't', ' ', 'm', 'e', 's', 's', 'a', 'g', 'e', ')'
        ],
        summary_text(None) == seq![
            '(', 'n', 'o', ' ', 'c', 'o', 'm', 'm', 'i', 't', ' ', 'm', 'e', 's', 's', 'a', 'g', 'e', ')'
        ],
{
    lemma_first_line_is_whole_line(s);
}

/// The first line of `text`, as `str::lines().next()` gives it.
pub fn first_line_of(text: &str) -> (line: Option<String>)
    ensures
        match line {
            Some(l) => first_line(text@) == Some(l@),
            None => first_line(text@) is None,
        },
{
    let n = text.unicode_len();
    if n == 0 {
        return None;
    }
    let mut i: usize = 0;
    while i < n && text.get_char(i) != '\n'
        invariant
            n == text@.len(),
            i <= n,
            forall|j: int| 0 <= j < i ==> text@[j] != '\n',
        decreases n - i,
    {
        i = i + 1;
    }
    proof {
        lemma_first_newline_at(text@, i as nat);
    }
    let end = if i < n && i > 0 && text.get_char(i - 1) == '\r' {
        i - 1
    } else {
        i
    };
    let line = text.substring_char(0, end).to_owned();
    proof {
        if end < i {
            assert(text@.take(i as int).drop_last() =~= text@.subrange(0, end as int));
        }
        assert(text@.take(i as int) =~= text@.subrange(0, i as int));
    }
    Some(line)
}

/// Build the summary of one commit from what could be read of it: its
/// short id, its raw message (none when not valid UTF-8) and its author's
/// name (none when unreadable). The summary is the message's first line, or
/// `(no commit message)`; the author falls back to `unknown`.
pub fn commit_summary(short_id: String, message: Option<&str>, author_name: Option<String>) -> (commit: CommitSummary)
    ensures
        commit.short_id@ == short_id@,
        commit.summary@ == summary_text(
            match message {
                Some(m) => Some(m@),
                None => None,
            },
        ),
        commit.author_name@ == match author_name {
            Some(a) => a@,
            None => unknown_author_text(),
        },
{
    proof {
        reveal_strlit("(no commit message)");
        reveal_strlit("unknown");
        assert("(no commit message)"@ =~= no_message_text());
        assert("unknown"@ =~= unknown_author_text());
    }
    let summary = match message {
        Some(m) => match first_line_of(m) {
            Some(line) => line,
            None => "(no commit message)".to_owned(),
        },
        None => "(no commit message)".to_owned(),
    };
    let author_name = match author_name {
        Some(a) => a,
        None => "unknown".to_owned(),
    };
    CommitSummary { short_id, summary, author_name }
}

/// The walk from `HEAD` through first parents, collecting at most `limit`
/// commit summaries.
pub struct CommitWalk {
    limit: usize,
    commits: Vec<CommitSummary>,
}

impl CommitWalk {
    /// The walk never holds more commits than its limit.
    #[verifier::type_invariant]
    closed spec fn within_limit(self) -> bool {
        self.commits@.len() <= self.limit
    }

    /// The most commits the walk will collect.
    pub closed spec fn limit(self) -> nat {
        self.limit as nat
    }

    /// The commits collected so far, oldest-visited first.
    pub closed spec fn commits(self) -> Seq<CommitSummary> {
        self.commits@
    }

    /// A walk that will collect up to `limit` commits.
    pub fn new(limit: usize) -> (walk: Self)
        ensures
            walk.limit() == limit,
            walk.commits() == Seq::<CommitSummary>::empty(),
    {
        CommitWalk { limit, commits: Vec::new() }
    }

    /// Whether the walk wants another commit.
    pub fn wants_more(&self) -> (more: bool)
        ensures
            more == (self.commits().len() < self.limit()),
    {
        self.commits.len() < self.limit
    }

    /// Record the next commit on the walk.
    pub fn record(&mut self, commit: CommitSummary)
        requires
            old(self).commits().len() < old(self).limit(),
        ensures
            final(self).limit() == old(self).limit(),
            final(self).commits() == old(self).commits().push(commit),
    {
        let mut commits = Vec::new();
        std::mem::swap(&mut commits, &mut self.commits);
        commits.push(commit);
        self.commits = commits;
    }

    /// One step of the walk, taken while it wants more commits: `read` is
    /// the commit at the current position with whether it has a first
    /// parent, or nothing when that commit could not be read. An unreadable
    /// commit ends the walk; a readable one is recorded, and the walk goes
    /// on to its first parent when there is one and more are wanted.
    pub fn step(&mut self, read: Option<(CommitSummary, bool)>) -> (go_on: bool)
        requires
            old(self).commits().len() < old(self).limit(),
        ensures
            final(self).limit() == old(self).limit(),
            match read {
                None => final(self).commits() == old(self).commits() && !go_on,
                Some((commit, has_parent)) => {
                    &&& final(self).commits() == old(self).commits().push(commit)
                    &&& go_on == (has_parent && final(self).commits().len() < final(self).limit())
                },
            },
    {
        match read {
            None => false,
            Some((commit, has_parent)) => {
                self.record(commit);
                has_parent && self.wants_more()
            },
        }
    }

    /// The commits collected, at most `limit` of them.
    pub fn into_commits(self) -> (commits: Vec<CommitSummary>)
        ensures
            commits@ == self.commits(),
            commits@.len() <= self.limit(),
    {
        proof {
            use_type_invariant(&self);
        }
        self.commits
    }
}

} // verus!
