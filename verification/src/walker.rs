//! The breadth-first traversal engine.
//!
//! The walker owns the frontier: a FIFO queue of not-yet-listed directories,
//! each paired with its path relative to the root and its depth below it.
//! Listing directories is I/O and stays with the caller; the walker decides.
//! The caller repeatedly asks for the next directory to list, performs the
//! listing, and hands the outcome back; the walker applies the ignore,
//! hidden, depth, pattern and extension filters to every entry, grows the
//! frontier with the subdirectories to visit, and returns the messages to
//! stream, in discovery order. A failed listing and a failed per-entry
//! metadata query each become exactly one failure message and never stop the
//! traversal.

use vstd::prelude::*;
use std::collections::VecDeque;
use ignore::gitignore::Gitignore;
use crate::filter::spec_is_hidden;
use crate::filter::spec_file_matches;
use crate::filter::is_hidden;
use crate::filter::file_matches;
use crate::gitignore::rel_path_wf;
use crate::gitignore::is_gitignored;
use crate::gitignore::gitignore_verdict;
use crate::strutil::spec_join;
use crate::strutil::join_path;
use vstd::string::StrSliceExecFns;
use vstd::string::StringExecFns;

verus! {

/// The filter configuration for one search, fixed before the walk starts.
#[derive(Clone)]
pub struct SearchConfig {
    /// The root directory the search starts from.
    pub root_path: String,
    /// The name pattern files must match; the single wildcard character
    /// matches everything.
    pub pattern: String,
    /// How deep below the root to descend; absence means unbounded.
    pub max_depth: Option<usize>,
    /// The allowed file extensions, compared case-insensitively; absence
    /// means no restriction.
    pub extensions: Option<Vec<String>>,
    /// Whether hidden entries are listed and descended into.
    pub show_hidden: bool,
    /// Whether entries the ignore ruleset excludes are included anyway.
    pub include_gitignored: bool,
}

/// What a directory entry turned out to be.
#[derive(Clone, Copy, PartialEq, Eq, Structural, Debug)]
pub enum EntryKind {
    Directory,
    File,
}

/// One entry of a directory listing as handed to the walker: the entry's
/// name, the outcome of the metadata query for it (a failed query carried as
/// its description), and the platform's native hidden attribute, false on
/// platforms without one or where it could not be read.
pub struct ListingEntry {
    pub name: String,
    pub kind: Result<EntryKind, String>,
    pub hidden_attr: bool,
}

/// The mathematical image of a listing entry.
pub struct ListingEntryV {
    pub name: Seq<char>,
    pub kind: Result<EntryKind, Seq<char>>,
    pub hidden_attr: bool,
}

impl View for ListingEntry {
    type V = ListingEntryV;

    open spec fn view(&self) -> ListingEntryV {
        ListingEntryV {
            name: self.name@,
            kind: match self.kind {
                Ok(k) => Ok(k),
                Err(d) => Err(d@),
            },
            hidden_attr: self.hidden_attr,
        }
    }
}

impl DeepView for ListingEntry {
    type V = ListingEntryV;

    open spec fn deep_view(&self) -> ListingEntryV {
        self.view()
    }
}

/// One message of the result stream: a file that passed every filter, or an
/// isolated per-entry or per-directory failure.
pub enum Message {
    Match(String),
    Failure(String),
}

/// The mathematical image of a result message.
pub enum MessageV {
    Match(Seq<char>),
    Failure(Seq<char>),
}

impl View for Message {
    type V = MessageV;

    open spec fn view(&self) -> MessageV {
        match self {
            Message::Match(p) => MessageV::Match(p@),
            Message::Failure(d) => MessageV::Failure(d@),
        }
    }
}

impl DeepView for Message {
    type V = MessageV;

    open spec fn deep_view(&self) -> MessageV {
        self.view()
    }
}

/// One pending directory of the frontier: its full path, its path relative
/// to the root (empty for the root itself), and its depth below the root.
pub struct DirTask {
    pub path: String,
    pub rel: String,
    pub depth: usize,
}

/// The mathematical image of a pending directory.
pub struct DirTaskV {
    pub path: Seq<char>,
    pub rel: Seq<char>,
    pub depth: nat,
}

impl View for DirTask {
    type V = DirTaskV;

    open spec fn view(&self) -> DirTaskV {
        DirTaskV { path: self.path@, rel: self.rel@, depth: self.depth as nat }
    }
}

impl DeepView for DirTask {
    type V = DirTaskV;

    open spec fn deep_view(&self) -> DirTaskV {
        self.view()
    }
}

/// A name handed in a listing is a single path component: nonempty and free
/// of the separator.
pub open spec fn entry_name_wf(n: Seq<char>) -> bool {
    n.len() > 0 && forall|i: int| 0 <= i < n.len() ==> n[i] != '/'
}

/// A well-formed root-relative directory path: empty for the root itself,
/// otherwise separator-joined components with no leading, trailing or
/// doubled separator.
pub open spec fn rel_dir_wf(p: Seq<char>) -> bool {
    p.len() == 0 || (p[0] != '/' && p[p.len() - 1] != '/' && forall|i: int|
        0 <= i < p.len() - 1 ==> !(#[trigger] p[i] == '/' && p[i + 1] == '/'))
}

/// The root-relative path of an entry named `name` inside the directory
/// whose root-relative path is `dir_rel`.
pub open spec fn spec_entry_rel(dir_rel: Seq<char>, name: Seq<char>) -> Seq<char> {
    if dir_rel.len() == 0 {
        name
    } else {
        dir_rel + seq!['/'] + name
    }
}

/// Joining a well-formed name onto a well-formed relative directory path
/// yields a well-formed relative path, in particular one the ignore matcher
/// accepts.
pub proof fn lemma_entry_rel_wf(dir_rel: Seq<char>, name: Seq<char>)
    requires
        rel_dir_wf(dir_rel),
        entry_name_wf(name),
    ensures
        rel_dir_wf(spec_entry_rel(dir_rel, name)),
        rel_path_wf(spec_entry_rel(dir_rel, name)),
{
    let r = spec_entry_rel(dir_rel, name);
    if dir_rel.len() == 0 {
        assert(r == name);
        assert(rel_dir_wf(r));
    } else {
        let dl = dir_rel.len() as int;
        assert(r.len() == dl + 1 + name.len());
        assert forall|i: int| 0 <= i < r.len() implies #[trigger] r[i] == (if i < dl {
            dir_rel[i]
        } else if i == dl {
            '/'
        } else {
            name[i - dl - 1]
        }) by {
        }
        assert(r[0] != '/');
        assert(r[r.len() - 1] == name[name.len() - 1]);
        assert forall|i: int| 0 <= i < r.len() - 1 implies !(#[trigger] r[i] == '/' && r[i + 1]
            == '/') by {
            if i < dl - 1 {
                assert(!(dir_rel[i] == '/' && dir_rel[i + 1] == '/'));
            } else if i == dl - 1 {
                assert(r[i] == dir_rel[dl - 1]);
                assert(r[i] != '/');
            } else if i == dl {
                assert(r[i + 1] == name[0]);
                assert(r[i + 1] != '/');
            } else {
                assert(r[i] == name[i - dl - 1]);
                assert(r[i] != '/');
            }
        }
        assert(rel_dir_wf(r));
    }
    assert(rel_path_wf(r));
}

/// Builds the root-relative path of an entry from its directory's relative
/// path and its name.
pub fn join_rel(dir_rel: &str, name: &str) -> (r: String)
    ensures
        r@ == spec_entry_rel(dir_rel@, name@),
{
    if dir_rel.unicode_len() == 0 {
        let mut r = String::new();
        r.append(name);
        assert(r@ =~= spec_entry_rel(dir_rel@, name@));
        r
    } else {
        let mut r = String::new();
        r.append(dir_rel);
        r.append("/");
        proof {
            reveal_strlit("/");
        }
        r.append(name);
        assert(r@ =~= dir_rel@ + seq!['/'] + name@);
        r
    }
}

/// The whole state of a walk: the configuration's filter fields, the
/// resolved maximum depth, and the frontier of pending directories.
pub struct WalkerV {
    pub pattern: Seq<char>,
    pub extensions: Option<Seq<Seq<char>>>,
    pub show_hidden: bool,
    pub include_gitignored: bool,
    pub max_depth: nat,
    pub frontier: Seq<DirTaskV>,
}

/// The BFS walker: holds the configuration and the frontier queue, seeded
/// with the root at depth zero.
pub struct Walker {
    config: SearchConfig,
    max_depth: usize,
    frontier: VecDeque<DirTask>,
}

impl View for Walker {
    type V = WalkerV;

    closed spec fn view(&self) -> WalkerV {
        WalkerV {
            pattern: self.config.pattern@,
            extensions: self.config.extensions.deep_view(),
            show_hidden: self.config.show_hidden,
            include_gitignored: self.config.include_gitignored,
            max_depth: self.max_depth as nat,
            frontier: Seq::new(self.frontier@.len(), |i: int| self.frontier@[i]@),
        }
    }
}

/// Every relative directory path on the frontier is well formed.
pub open spec fn walker_wf(w: WalkerV) -> bool {
    forall|i: int| 0 <= i < w.frontier.len() ==> rel_dir_wf(#[trigger] w.frontier[i].rel)
}

/// The filter fields of the walk state, unchanged by every step.
pub open spec fn same_config(a: WalkerV, b: WalkerV) -> bool {
    &&& a.pattern == b.pattern
    &&& a.extensions == b.extensions
    &&& a.show_hidden == b.show_hidden
    &&& a.include_gitignored == b.include_gitignored
    &&& a.max_depth == b.max_depth
}

/// What popping the next directory yields: pending directories leave in FIFO
/// order; one deeper than the maximum depth is discarded unlisted; the first
/// one within bounds is returned together with the remaining frontier.
pub open spec fn spec_next_dir(fr: Seq<DirTaskV>, md: nat) -> (Option<DirTaskV>, Seq<DirTaskV>)
    decreases fr.len(),
{
    if fr.len() == 0 {
        (None, fr)
    } else if fr[0].depth <= md {
        (Some(fr[0]), fr.drop_first())
    } else {
        spec_next_dir(fr.drop_first(), md)
    }
}

/// Depth boundary law, dequeue half: no directory is ever handed out for
/// listing at a depth beyond the maximum.
pub proof fn lemma_next_dir_depth(fr: Seq<DirTaskV>, md: nat)
    ensures
        match spec_next_dir(fr, md).0 {
            Some(t) => t.depth <= md,
            None => true,
        },
    decreases fr.len(),
{
    if fr.len() == 0 {
    } else if fr[0].depth <= md {
    } else {
        lemma_next_dir_depth(fr.drop_first(), md);
    }
}

impl Walker {
    /// Starts a walk over the given configuration: the frontier holds the
    /// root at depth zero, and an absent maximum depth means unbounded.
    pub fn new(config: SearchConfig) -> (w: Walker)
        ensures
            w@.pattern == config.pattern@,
            w@.extensions == config.extensions.deep_view(),
            w@.show_hidden == config.show_hidden,
            w@.include_gitignored == config.include_gitignored,
            w@.max_depth == (match config.max_depth {
                Some(d) => d as nat,
                None => usize::MAX as nat,
            }),
            w@.frontier.len() == 1,
            w@.frontier[0] == (DirTaskV { path: config.root_path@, rel: Seq::<char>::empty(), depth: 0 }),
            walker_wf(w@),
    {
        let max_depth: usize = match config.max_depth {
            Some(d) => d,
            None => usize::MAX,
        };
        let root = config.root_path.clone();
        let mut frontier: VecDeque<DirTask> = VecDeque::new();
        frontier.push_back(DirTask { path: root, rel: String::new(), depth: 0 });
        let w = Walker { config, max_depth, frontier };
        assert(w@.frontier =~= seq![w.frontier@[0]@]);
        w
    }

    /// Yields the next directory to list: pops pending directories in FIFO
    /// order, discarding any deeper than the maximum depth without listing
    /// them, and returns the first within bounds, or nothing once the
    /// frontier is exhausted.
    pub fn next_dir(&mut self) -> (r: Option<DirTask>)
        ensures
            same_config(final(self)@, old(self)@),
            final(self)@.frontier == spec_next_dir(old(self)@.frontier, old(self)@.max_depth).1,
            (match r {
                Some(t) => spec_next_dir(old(self)@.frontier, old(self)@.max_depth).0 == Some(t@)
                    && t@.depth <= old(self)@.max_depth,
                None => spec_next_dir(old(self)@.frontier, old(self)@.max_depth).0 is None,
            }),
            walker_wf(old(self)@) ==> walker_wf(final(self)@),
            (walker_wf(old(self)@) && r is Some) ==> rel_dir_wf(match r {
                Some(t) => t@.rel,
                None => Seq::empty(),
            }),
    {
        loop
            invariant
                same_config(self@, old(self)@),
                spec_next_dir(self@.frontier, self@.max_depth) == spec_next_dir(
                    old(self)@.frontier,
                    old(self)@.max_depth,
                ),
                walker_wf(old(self)@) ==> walker_wf(self@),
            decreases self@.frontier.len(),
        {
            let ghost pre = self@;
            match self.frontier.pop_front() {
                None => {
                    assert(self@.frontier =~= pre.frontier);
                    return None;
                },
                Some(t) => {
                    assert(self@.frontier =~= pre.frontier.drop_first());
                    assert(t@ == pre.frontier[0]);
                    if t.depth <= self.max_depth {
                        return Some(t);
                    }
                },
            }
        }
    }
}

/// The ignore verdict recorded for entry `i`, absent verdicts counting as
/// not ignored.
pub open spec fn ign_at(ign: Seq<bool>, i: int) -> bool {
    if 0 <= i < ign.len() {
        ign[i]
    } else {
        false
    }
}

/// An option as the sequence of its zero or one elements.
pub open spec fn opt_seq<A>(o: Option<A>) -> Seq<A> {
    match o {
        Some(a) => seq![a],
        None => Seq::empty(),
    }
}

/// An entry is hidden when its name begins with the marker character, or
/// when the platform's native hidden attribute is set on it.
pub open spec fn spec_entry_hidden(e: ListingEntryV) -> bool {
    spec_is_hidden(e.name) || e.hidden_attr
}

/// Whether the metadata query reported the entry as a directory; a failed
/// query counts as not a directory.
pub open spec fn spec_entry_is_dir(e: ListingEntryV) -> bool {
    e.kind == Ok::<EntryKind, Seq<char>>(EntryKind::Directory)
}

/// The first `n` recorded ignore verdicts are exactly the matcher's verdicts
/// on the entries' root-relative paths.
pub open spec fn verdicts_match(
    g: Gitignore,
    t: DirTaskV,
    es: Seq<ListingEntryV>,
    ign: Seq<bool>,
    n: int,
) -> bool {
    forall|i: int|
        0 <= i < n ==> ign_at(ign, i) == gitignore_verdict(
            g,
            spec_entry_rel(t.rel, (#[trigger] es[i]).name),
            spec_entry_is_dir(es[i]),
        )
}

/// The message, if any, that one listing entry produces, given the ignore
/// verdict for it: an ignored entry under the active ignore policy produces
/// nothing; a failed metadata query produces its failure; a hidden entry
/// under the default hidden policy produces nothing; a file passing the
/// pattern and extension filters produces a match carrying its full path.
pub open spec fn spec_entry_message(
    w: WalkerV,
    t: DirTaskV,
    e: ListingEntryV,
    ignored: bool,
) -> Option<MessageV> {
    if !w.include_gitignored && ignored {
        None
    } else {
        match e.kind {
            Err(d) => Some(MessageV::Failure(d)),
            Ok(k) => {
                if !w.show_hidden && spec_entry_hidden(e) {
                    None
                } else if k is Directory {
                    None
                } else if spec_file_matches(e.name, w.pattern, w.extensions) {
                    Some(MessageV::Match(spec_join(t.path, e.name)))
                } else {
                    None
                }
            },
        }
    }
}

/// The frontier task, if any, that one listing entry adds: only a directory
/// that is neither skipped by the ignore policy nor by the hidden policy,
/// and whose depth would not exceed the maximum, is enqueued one level
/// deeper.
pub open spec fn spec_entry_enqueue(
    w: WalkerV,
    t: DirTaskV,
    e: ListingEntryV,
    ignored: bool,
) -> Option<DirTaskV> {
    if !w.include_gitignored && ignored {
        None
    } else {
        match e.kind {
            Err(_) => None,
            Ok(k) => {
                if !w.show_hidden && spec_entry_hidden(e) {
                    None
                } else if k is Directory && t.depth < w.max_depth {
                    Some(
                        DirTaskV {
                            path: spec_join(t.path, e.name),
                            rel: spec_entry_rel(t.rel, e.name),
                            depth: t.depth + 1,
                        },
                    )
                } else {
                    None
                }
            },
        }
    }
}

/// The messages and new frontier tasks produced by the first `n` entries of
/// a listing, in listing order, under the given ignore verdicts.
pub open spec fn spec_process_entries(
    w: WalkerV,
    t: DirTaskV,
    es: Seq<ListingEntryV>,
    ign: Seq<bool>,
    n: int,
) -> (Seq<MessageV>, Seq<DirTaskV>)
    decreases n,
{
    if n <= 0 || n > es.len() {
        (Seq::empty(), Seq::empty())
    } else {
        let prev = spec_process_entries(w, t, es, ign, n - 1);
        let m = spec_entry_message(w, t, es[n - 1], ign_at(ign, n - 1));
        let q = spec_entry_enqueue(w, t, es[n - 1], ign_at(ign, n - 1));
        (prev.0 + opt_seq(m), prev.1 + opt_seq(q))
    }
}

/// What processing one directory listing did: some sequence of ignore
/// verdicts, one per entry, accounts for exactly the messages returned and
/// exactly the tasks appended to the frontier.
pub open spec fn listing_outcome(
    w: WalkerV,
    t: DirTaskV,
    es: Seq<ListingEntryV>,
    ign: Seq<bool>,
    msgs: Seq<MessageV>,
    frontier2: Seq<DirTaskV>,
) -> bool {
    &&& ign.len() == es.len()
    &&& msgs == spec_process_entries(w, t, es, ign, es.len() as int).0
    &&& frontier2 == w.frontier + spec_process_entries(w, t, es, ign, es.len() as int).1
}

impl Walker {
    /// Processes the outcome of listing one directory, previously handed out
    /// by `next_dir`. A failed listing becomes exactly one failure message
    /// and leaves the frontier alone. For a successful listing the walker
    /// applies, to each entry in order: the ignore policy (consulting the
    /// ruleset, unless overridden), the metadata outcome, the hidden policy,
    /// and then either enqueues a directory within the depth bound or emits
    /// a match for a file passing the pattern and extension filters. The
    /// returned messages are in discovery order. With no ruleset every
    /// ignore verdict is false and the outcome is fully determined.
    pub fn process_listing(
        &mut self,
        task: &DirTask,
        listing: &Result<Vec<ListingEntry>, String>,
        gitignore: &Option<Gitignore>,
    ) -> (msgs: Vec<Message>)
        requires
            rel_dir_wf(task@.rel),
            match listing {
                Ok(es) => forall|i: int|
                    0 <= i < es.len() ==> entry_name_wf(#[trigger] es[i]@.name),
                Err(_) => true,
            },
        ensures
            same_config(final(self)@, old(self)@),
            walker_wf(old(self)@) ==> walker_wf(final(self)@),
            match listing {
                Err(d) => msgs.deep_view() == seq![MessageV::Failure(d@)] && final(self)@.frontier
                    == old(self)@.frontier,
                Ok(es) => exists|ign: Seq<bool>|
                    #[trigger] listing_outcome(
                        old(self)@,
                        task@,
                        es.deep_view(),
                        ign,
                        msgs.deep_view(),
                        final(self)@.frontier,
                    ) && (match gitignore {
                        None => ign == Seq::new(es@.len(), |i: int| false),
                        Some(g) => !old(self)@.include_gitignored ==> verdicts_match(
                            *g,
                            task@,
                            es.deep_view(),
                            ign,
                            es@.len() as int,
                        ),
                    }),
            },
    {
        match listing {
            Err(d) => {
                let mut msgs: Vec<Message> = Vec::new();
                msgs.push(Message::Failure(d.clone()));
                assert(msgs.deep_view() =~= seq![MessageV::Failure(d@)]);
                msgs
            },
            Ok(entries) => {
                let ghost w0 = self@;
                let ghost es = entries.deep_view();
                let mut msgs: Vec<Message> = Vec::new();
                let ghost mut ign: Seq<bool> = Seq::empty();
                let mut i: usize = 0;
                proof {
                    assert(es.len() == entries@.len());
                    assert(msgs.deep_view() =~= spec_process_entries(w0, task@, es, ign, 0).0);
                    assert(self@.frontier =~= w0.frontier + spec_process_entries(
                        w0,
                        task@,
                        es,
                        ign,
                        0,
                    ).1);
                }
                while i < entries.len()
                    invariant
                        same_config(self@, w0),
                        w0 == old(self)@,
                        es == entries.deep_view(),
                        rel_dir_wf(task@.rel),
                        forall|k: int|
                            0 <= k < entries.len() ==> entry_name_wf(#[trigger] entries[k]@.name),
                        i <= entries@.len(),
                        ign.len() == i,
                        msgs.deep_view() == spec_process_entries(w0, task@, es, ign, i as int).0,
                        self@.frontier == w0.frontier + spec_process_entries(
                            w0,
                            task@,
                            es,
                            ign,
                            i as int,
                        ).1,
                        match gitignore {
                            None => ign == Seq::new(i as nat, |k: int| false),
                            Some(g) => !w0.include_gitignored ==> verdicts_match(
                                *g,
                                task@,
                                es,
                                ign,
                                i as int,
                            ),
                        },
                        walker_wf(w0) ==> walker_wf(self@),
                    decreases entries@.len() - i,
                {
                    let ghost msgs_pre = msgs.deep_view();
                    let ghost frontier_pre = self@.frontier;
                    let ghost ign_pre = ign;
                    let entry = &entries[i];
                    proof {
                        assert(es[i as int] == entries@[i as int]@);
                        assert(entry_name_wf(entry@.name));
                        lemma_entry_rel_wf(task@.rel, entry@.name);
                    }
                    let ignored: bool;
                    if !self.config.include_gitignored {
                        let rel = join_rel(task.rel.as_str(), entry.name.as_str());
                        let is_dir = match &entry.kind {
                            Ok(EntryKind::Directory) => true,
                            _ => false,
                        };
                        proof {
                            assert(rel@ == spec_entry_rel(task@.rel, es[i as int].name));
                            assert(is_dir == spec_entry_is_dir(es[i as int]));
                        }
                        ignored = is_gitignored(&rel, is_dir, gitignore);
                    } else {
                        ignored = false;
                    }
                    proof {
                        ign = ign.push(ignored);
                        assert(ign_at(ign, i as int) == ignored);
                        assert(forall|k: int| 0 <= k < i ==> ign_at(ign, k) == ign_at(ign_pre, k));
                        lemma_process_entries_verdict_prefix(w0, task@, es, ign_pre, ign, i as int);
                    }
                    let ghost expect_m = spec_entry_message(w0, task@, es[i as int], ignored);
                    let ghost expect_q = spec_entry_enqueue(w0, task@, es[i as int], ignored);
                    if !(!self.config.include_gitignored && ignored) {
                        match &entry.kind {
                            Err(d) => {
                                msgs.push(Message::Failure(d.clone()));
                                assert(msgs.deep_view() =~= msgs_pre + opt_seq(expect_m));
                            },
                            Ok(k) => {
                                let hidden = is_hidden(entry.name.as_str()) || entry.hidden_attr;
                                if !self.config.show_hidden && hidden {
                                    assert(expect_m is None && expect_q is None);
                                } else {
                                    match k {
                                        EntryKind::Directory => {
                                            if task.depth < self.max_depth {
                                                let child = DirTask {
                                                    path: join_path(
                                                        task.path.as_str(),
                                                        entry.name.as_str(),
                                                    ),
                                                    rel: join_rel(
                                                        task.rel.as_str(),
                                                        entry.name.as_str(),
                                                    ),
                                                    depth: task.depth + 1,
                                                };
                                                proof {
                                                    assert(expect_q == Some(child@));
                                                }
                                                self.frontier.push_back(child);
                                                assert(self@.frontier =~= frontier_pre + opt_seq(
                                                    expect_q,
                                                ));
                                            } else {
                                                assert(expect_q is None);
                                            }
                                            assert(expect_m is None);
                                        },
                                        EntryKind::File => {
                                            if file_matches(
                                                entry.name.as_str(),
                                                self.config.pattern.as_str(),
                                                &self.config.extensions,
                                            ) {
                                                msgs.push(
                                                    Message::Match(
                                                        join_path(
                                                            task.path.as_str(),
                                                            entry.name.as_str(),
                                                        ),
                                                    ),
                                                );
                                                assert(msgs.deep_view() =~= msgs_pre + opt_seq(
                                                    expect_m,
                                                ));
                                            } else {
                                                assert(expect_m is None);
                                            }
                                            assert(expect_q is None);
                                        },
                                    }
                                }
                            },
                        }
                    } else {
                        assert(expect_m is None && expect_q is None);
                    }
                    proof {
                        if expect_m is None {
                            assert(msgs.deep_view() =~= msgs_pre + opt_seq(expect_m));
                        }
                        if expect_q is None {
                            assert(self@.frontier =~= frontier_pre + opt_seq(expect_q));
                        }
                        assert(spec_process_entries(w0, task@, es, ign, i + 1).0 == msgs_pre
                            + opt_seq(expect_m));
                        assert(spec_process_entries(w0, task@, es, ign, i + 1).1
                            == spec_process_entries(w0, task@, es, ign, i as int).1 + opt_seq(
                            expect_q,
                        ));
                        match gitignore {
                            None => {
                                assert(ignored == false);
                                assert(ign =~= Seq::new((i + 1) as nat, |k: int| false));
                            },
                            Some(g) => {
                                if !w0.include_gitignored {
                                    assert(ignored == gitignore_verdict(
                                        *g,
                                        spec_entry_rel(task@.rel, es[i as int].name),
                                        spec_entry_is_dir(es[i as int]),
                                    ));
                                    assert(verdicts_match(*g, task@, es, ign, i + 1));
                                }
                            },
                        }
                        if walker_wf(w0) {
                            assert(walker_wf(self@)) by {
                                if expect_q is Some {
                                    assert(rel_dir_wf(spec_entry_rel(task@.rel, es[i as int].name)));
                                    assert forall|j: int| 0 <= j < self@.frontier.len()
                                        implies rel_dir_wf(#[trigger] self@.frontier[j].rel) by {
                                        if j < frontier_pre.len() {
                                            assert(self@.frontier[j] == frontier_pre[j]);
                                        }
                                    }
                                }
                            }
                        }
                    }
                    i = i + 1;
                }
                proof {
                    assert(listing_outcome(
                        w0,
                        task@,
                        es,
                        ign,
                        msgs.deep_view(),
                        self@.frontier,
                    ));
                }
                msgs
            },
        }
    }
}

/// The outcome of processing a prefix of a listing depends only on the
/// verdicts for that prefix.
pub proof fn lemma_process_entries_verdict_prefix(
    w: WalkerV,
    t: DirTaskV,
    es: Seq<ListingEntryV>,
    ign1: Seq<bool>,
    ign2: Seq<bool>,
    n: int,
)
    requires
        forall|j: int| 0 <= j < n ==> ign_at(ign1, j) == ign_at(ign2, j),
    ensures
        spec_process_entries(w, t, es, ign1, n) == spec_process_entries(w, t, es, ign2, n),
    decreases n,
{
    if n <= 0 || n > es.len() {
    } else {
        lemma_process_entries_verdict_prefix(w, t, es, ign1, ign2, n - 1);
    }
}

/// Depth boundary law, enqueue half: every task a listing adds to the
/// frontier lies exactly one level below the listed directory, and only a
/// directory strictly above the maximum depth enqueues at all, so no added
/// task ever exceeds the maximum depth.
pub proof fn lemma_enqueue_depth(
    w: WalkerV,
    t: DirTaskV,
    es: Seq<ListingEntryV>,
    ign: Seq<bool>,
    n: int,
)
    ensures
        forall|j: int| 0 <= j < spec_process_entries(w, t, es, ign, n).1.len() ==> {
            let d = (#[trigger] spec_process_entries(w, t, es, ign, n).1[j]).depth;
            d == t.depth + 1 && d <= w.max_depth
        },
    decreases n,
{
    if n <= 0 || n > es.len() {
    } else {
        lemma_enqueue_depth(w, t, es, ign, n - 1);
        let prev = spec_process_entries(w, t, es, ign, n - 1);
        let q = spec_entry_enqueue(w, t, es[n - 1], ign_at(ign, n - 1));
        assert forall|j: int| 0 <= j < spec_process_entries(w, t, es, ign, n).1.len() implies {
            let d = (#[trigger] spec_process_entries(w, t, es, ign, n).1[j]).depth;
            d == t.depth + 1 && d <= w.max_depth
        } by {
            if j < prev.1.len() {
                assert(spec_process_entries(w, t, es, ign, n).1[j] == prev.1[j]);
            } else {
                assert(spec_process_entries(w, t, es, ign, n).1[j] == opt_seq(q)[j
                    - prev.1.len()]);
            }
        }
    }
}

/// Hidden exclusion law, exclusion half: with hidden entries excluded, an
/// entry hidden by its leading marker or by the platform attribute produces
/// no message and enqueues nothing, so neither a hidden file nor anything
/// below a hidden directory is ever reported.
pub proof fn lemma_hidden_excluded(w: WalkerV, t: DirTaskV, e: ListingEntryV, ignored: bool)
    requires
        !w.show_hidden,
        spec_entry_hidden(e),
        e.kind is Ok,
    ensures
        spec_entry_message(w, t, e, ignored) is None,
        spec_entry_enqueue(w, t, e, ignored) is None,
{
}

/// Hidden exclusion law, inclusion half: with hidden entries included, a
/// hidden file that passes the remaining filters is reported like any other,
/// and a hidden directory within the depth bound is descended into.
pub proof fn lemma_hidden_included(w: WalkerV, t: DirTaskV, e: ListingEntryV, ignored: bool)
    requires
        w.show_hidden,
        !(!w.include_gitignored && ignored),
        e.kind is Ok,
    ensures
        e.kind == Ok::<EntryKind, Seq<char>>(EntryKind::File) && spec_file_matches(
            e.name,
            w.pattern,
            w.extensions,
        ) ==> spec_entry_message(w, t, e, ignored) == Some(
            MessageV::Match(spec_join(t.path, e.name)),
        ),
        e.kind == Ok::<EntryKind, Seq<char>>(EntryKind::Directory) && t.depth < w.max_depth
            ==> spec_entry_enqueue(w, t, e, ignored) == Some(
            (DirTaskV {
                path: spec_join(t.path, e.name),
                rel: spec_entry_rel(t.rel, e.name),
                depth: t.depth + 1,
            }),
        ),
{
}

/// Ignore law, exclusion half: while the ignore policy is active, an entry
/// the ruleset reports as ignored is skipped entirely: no message, no
/// descent, even for a directory.
pub proof fn lemma_ignored_entry_skipped(w: WalkerV, t: DirTaskV, e: ListingEntryV)
    requires
        !w.include_gitignored,
    ensures
        spec_entry_message(w, t, e, true) is None,
        spec_entry_enqueue(w, t, e, true) is None,
{
}

/// Ignore law, override half: with the ignore policy overridden, the
/// ruleset's verdicts make no difference to the outcome of a listing.
pub proof fn lemma_override_ignores_verdicts(
    w: WalkerV,
    t: DirTaskV,
    es: Seq<ListingEntryV>,
    ign1: Seq<bool>,
    ign2: Seq<bool>,
    n: int,
)
    requires
        w.include_gitignored,
    ensures
        spec_process_entries(w, t, es, ign1, n) == spec_process_entries(w, t, es, ign2, n),
    decreases n,
{
    if n <= 0 || n > es.len() {
    } else {
        lemma_override_ignores_verdicts(w, t, es, ign1, ign2, n - 1);
    }
}

/// Error isolation law, per entry: an entry whose metadata query failed
/// contributes exactly its one failure message, enqueues nothing, and leaves
/// every other entry's contribution unchanged, so the traversal continues.
pub proof fn lemma_entry_error_isolated(w: WalkerV, t: DirTaskV, e: ListingEntryV, ignored: bool)
    requires
        e.kind is Err,
        !(!w.include_gitignored && ignored),
    ensures
        match e.kind {
            Err(d) => spec_entry_message(w, t, e, ignored) == Some(MessageV::Failure(d)),
            Ok(_) => false,
        },
        spec_entry_enqueue(w, t, e, ignored) is None,
{
}

/// Every listing entry contributes at most one message: a listing of `n`
/// entries never produces more than `n` messages.
pub proof fn lemma_message_count(
    w: WalkerV,
    t: DirTaskV,
    es: Seq<ListingEntryV>,
    ign: Seq<bool>,
    n: int,
)
    ensures
        spec_process_entries(w, t, es, ign, n).0.len() <= if n <= 0 {
            0
        } else {
            n
        },
    decreases n,
{
    if n <= 0 || n > es.len() {
    } else {
        lemma_message_count(w, t, es, ign, n - 1);
    }
}

/// One recorded step of a finished walk: the directory that was listed, the
/// listing outcome, and the ignore verdicts that applied to its entries.
/// A sequence of such steps replays a whole traversal, so that properties of
/// the walk as a whole can be stated and proved, not only per step.
pub struct WalkStepV {
    pub task: DirTaskV,
    pub listing: Result<Seq<ListingEntryV>, Seq<char>>,
    pub ign: Seq<bool>,
}

/// The messages one step emits from walker state `v`: one failure for a
/// failed listing, otherwise the per-entry messages in listing order.
pub open spec fn spec_step_messages(v: WalkerV, st: WalkStepV) -> Seq<MessageV> {
    match st.listing {
        Err(d) => seq![MessageV::Failure(d)],
        Ok(es) => spec_process_entries(v, st.task, es, st.ign, es.len() as int).0,
    }
}

/// The walker state after one step: the listed directory leaves the
/// frontier, and a successful listing appends the subdirectories to visit.
pub open spec fn spec_step_state(v: WalkerV, st: WalkStepV) -> WalkerV {
    let fr = spec_next_dir(v.frontier, v.max_depth).1;
    match st.listing {
        Err(_) => WalkerV { frontier: fr, ..v },
        Ok(es) => WalkerV {
            frontier: fr + spec_process_entries(v, st.task, es, st.ign, es.len() as int).1,
            ..v
        },
    }
}

/// The walker state and the accumulated message stream after replaying the
/// first `n` steps of a walk from state `w`.
pub open spec fn spec_walk(w: WalkerV, steps: Seq<WalkStepV>, n: int) -> (WalkerV, Seq<MessageV>)
    decreases n,
{
    if n <= 0 || n > steps.len() {
        (w, Seq::empty())
    } else {
        let prev = spec_walk(w, steps, n - 1);
        (
            spec_step_state(prev.0, steps[n - 1]),
            prev.1 + spec_step_messages(prev.0, steps[n - 1]),
        )
    }
}

/// The steps describe a walk faithfully: each lists exactly the directory
/// the frontier yields at that point.
pub open spec fn walk_steps_valid(w: WalkerV, steps: Seq<WalkStepV>) -> bool {
    forall|i: int|
        0 <= i < steps.len() ==> spec_next_dir(spec_walk(w, steps, i).0.frontier, w.max_depth).0
            == Some((#[trigger] steps[i]).task)
}

/// Replaying steps never changes the filter configuration.
pub proof fn lemma_walk_config(w: WalkerV, steps: Seq<WalkStepV>, n: int)
    ensures
        same_config(spec_walk(w, steps, n).0, w),
    decreases n,
{
    if n <= 0 || n > steps.len() {
    } else {
        lemma_walk_config(w, steps, n - 1);
    }
}

/// All pending directories lie within the depth bound; a fresh walker's
/// frontier satisfies this, holding only the root at depth zero.
pub open spec fn frontier_depths_ok(v: WalkerV) -> bool {
    forall|i: int| 0 <= i < v.frontier.len() ==> (#[trigger] v.frontier[i]).depth <= v.max_depth
}

/// Popping the next directory keeps every remaining pending directory within
/// the depth bound.
proof fn lemma_next_dir_keeps_depths(fr: Seq<DirTaskV>, md: nat)
    requires
        forall|i: int| 0 <= i < fr.len() ==> (#[trigger] fr[i]).depth <= md,
    ensures
        forall|i: int|
            0 <= i < spec_next_dir(fr, md).1.len() ==> (#[trigger] spec_next_dir(fr, md).1[i]).depth
                <= md,
    decreases fr.len(),
{
    if fr.len() == 0 {
    } else if fr[0].depth <= md {
    } else {
        assert(forall|i: int|
            0 <= i < fr.drop_first().len() ==> (#[trigger] fr.drop_first()[i]).depth <= md);
        lemma_next_dir_keeps_depths(fr.drop_first(), md);
    }
}

/// Depth boundary law, whole-walk form: starting from a frontier within the
/// depth bound, every directory any faithful walk ever lists lies within the
/// bound, and every intermediate frontier stays within it. No match can
/// therefore come from deeper than the bound: matches only name files of
/// listed directories.
#[verifier::rlimit(60)]
#[verifier::spinoff_prover]
pub proof fn lemma_walk_depth_bound(w: WalkerV, steps: Seq<WalkStepV>, n: int)
    requires
        frontier_depths_ok(w),
        walk_steps_valid(w, steps),
        0 <= n <= steps.len(),
    ensures
        frontier_depths_ok(spec_walk(w, steps, n).0),
        forall|i: int| 0 <= i < n ==> (#[trigger] steps[i]).task.depth <= w.max_depth,
    decreases n,
{
    if n == 0 {
    } else {
        lemma_walk_depth_bound(w, steps, n - 1);
        let v = spec_walk(w, steps, n - 1).0;
        let st = steps[n - 1];
        lemma_walk_config(w, steps, n - 1);
        lemma_next_dir_depth(v.frontier, v.max_depth);
        assert(spec_next_dir(v.frontier, w.max_depth).0 == Some(st.task));
        assert(st.task.depth <= w.max_depth);
        lemma_next_dir_keeps_depths(v.frontier, v.max_depth);
        let fr = spec_next_dir(v.frontier, v.max_depth).1;
        match st.listing {
            Err(_) => {
                assert(frontier_depths_ok(spec_walk(w, steps, n).0));
            },
            Ok(es) => {
                lemma_enqueue_depth(v, st.task, es, st.ign, es.len() as int);
                let added = spec_process_entries(v, st.task, es, st.ign, es.len() as int).1;
                assert forall|i: int| 0 <= i < (fr + added).len() implies (#[trigger] (fr
                    + added)[i]).depth <= w.max_depth by {
                    if i < fr.len() {
                        assert((fr + added)[i] == fr[i]);
                    } else {
                        assert((fr + added)[i] == added[i - fr.len()]);
                    }
                }
            },
        }
    }
}

/// Two recorded walks that differ only in their ignore verdicts.
pub open spec fn steps_same_modulo_verdicts(s1: Seq<WalkStepV>, s2: Seq<WalkStepV>) -> bool {
    s1.len() == s2.len() && forall|i: int|
        0 <= i < s1.len() ==> (#[trigger] s1[i]).task == s2[i].task && s1[i].listing
            == s2[i].listing
}

/// Ignore law, whole-walk override half: with the ignore policy overridden,
/// the recorded verdicts make no difference to any state or message of the
/// walk: the ruleset is effectively never consulted.
pub proof fn lemma_walk_override_ignores_verdicts(
    w: WalkerV,
    s1: Seq<WalkStepV>,
    s2: Seq<WalkStepV>,
    n: int,
)
    requires
        w.include_gitignored,
        steps_same_modulo_verdicts(s1, s2),
    ensures
        spec_walk(w, s1, n) == spec_walk(w, s2, n),
    decreases n,
{
    if n <= 0 || n > s1.len() {
    } else {
        lemma_walk_override_ignores_verdicts(w, s1, s2, n - 1);
        let v = spec_walk(w, s1, n - 1).0;
        lemma_walk_config(w, s1, n - 1);
        match s1[n - 1].listing {
            Err(_) => {},
            Ok(es) => {
                lemma_override_ignores_verdicts(
                    v,
                    s1[n - 1].task,
                    es,
                    s1[n - 1].ign,
                    s2[n - 1].ign,
                    es.len() as int,
                );
            },
        }
    }
}

/// Error isolation law, whole-walk half: a step whose listing failed
/// contributes exactly one failure message, and the walk then continues from
/// the same frontier as if the directory had been listed empty.
pub proof fn lemma_walk_listing_error_isolated(w: WalkerV, steps: Seq<WalkStepV>, i: int)
    requires
        0 <= i < steps.len(),
        steps[i].listing is Err,
    ensures
        (match steps[i].listing {
            Err(d) => spec_walk(w, steps, i + 1).1 == spec_walk(w, steps, i).1 + seq![
                MessageV::Failure(d),
            ],
            Ok(_) => false,
        }),
        spec_walk(w, steps, i + 1).0.frontier == spec_next_dir(
            spec_walk(w, steps, i).0.frontier,
            spec_walk(w, steps, i).0.max_depth,
        ).1,
{
}

/// A directory the frontier yields was pending on the frontier.
proof fn lemma_next_dir_yields_member(fr: Seq<DirTaskV>, md: nat)
    ensures
        match spec_next_dir(fr, md).0 {
            Some(t) => fr.contains(t),
            None => true,
        },
    decreases fr.len(),
{
    if fr.len() == 0 {
    } else if fr[0].depth <= md {
        assert(fr.contains(fr[0]));
    } else {
        lemma_next_dir_yields_member(fr.drop_first(), md);
        match spec_next_dir(fr, md).0 {
            Some(t) => {
                let k = choose|k: int|
                    0 <= k < fr.drop_first().len() && fr.drop_first()[k] == t;
                assert(fr[k + 1] == t);
            },
            None => {},
        }
    }
}

/// Every pending directory that remains after a pop was pending before it.
proof fn lemma_next_dir_membership(fr: Seq<DirTaskV>, md: nat)
    ensures
        forall|i: int|
            0 <= i < spec_next_dir(fr, md).1.len() ==> fr.contains(
                #[trigger] spec_next_dir(fr, md).1[i],
            ),
    decreases fr.len(),
{
    if fr.len() == 0 {
    } else if fr[0].depth <= md {
        assert forall|i: int| 0 <= i < spec_next_dir(fr, md).1.len() implies fr.contains(
            #[trigger] spec_next_dir(fr, md).1[i],
        ) by {
            assert(spec_next_dir(fr, md).1[i] == fr[i + 1]);
        }
    } else {
        lemma_next_dir_membership(fr.drop_first(), md);
        assert forall|i: int| 0 <= i < spec_next_dir(fr, md).1.len() implies fr.contains(
            #[trigger] spec_next_dir(fr, md).1[i],
        ) by {
            let t = spec_next_dir(fr, md).1[i];
            assert(spec_next_dir(fr, md).1 == spec_next_dir(fr.drop_first(), md).1);
            assert(t == spec_next_dir(fr.drop_first(), md).1[i]);
            assert(fr.drop_first().contains(t));
            let k = choose|k: int| 0 <= k < fr.drop_first().len() && fr.drop_first()[k] == t;
            assert(fr[k + 1] == t);
        }
    }
}

/// Every task a listing appends is the enqueue effect of one of its entries.
proof fn lemma_process_entries_enqueue_provenance(
    w: WalkerV,
    t: DirTaskV,
    es: Seq<ListingEntryV>,
    ign: Seq<bool>,
    n: int,
)
    ensures
        forall|idx: int|
            0 <= idx < spec_process_entries(w, t, es, ign, n).1.len() ==> exists|j: int|
                0 <= j < n && spec_entry_enqueue(w, t, es[j], ign_at(ign, j)) == Some(
                    #[trigger] spec_process_entries(w, t, es, ign, n).1[idx],
                ),
    decreases n,
{
    if n <= 0 || n > es.len() {
    } else {
        lemma_process_entries_enqueue_provenance(w, t, es, ign, n - 1);
        let prev = spec_process_entries(w, t, es, ign, n - 1).1;
        let q = spec_entry_enqueue(w, t, es[n - 1], ign_at(ign, n - 1));
        assert forall|idx: int|
            0 <= idx < spec_process_entries(w, t, es, ign, n).1.len() implies exists|j: int|
            0 <= j < n && spec_entry_enqueue(w, t, es[j], ign_at(ign, j)) == Some(
                #[trigger] spec_process_entries(w, t, es, ign, n).1[idx],
            ) by {
            let x = spec_process_entries(w, t, es, ign, n).1[idx];
            if idx < prev.len() {
                assert(x == prev[idx]);
                let j = choose|j: int|
                    0 <= j < n - 1 && spec_entry_enqueue(w, t, es[j], ign_at(ign, j)) == Some(
                        prev[idx],
                    );
                assert(spec_entry_enqueue(w, t, es[j], ign_at(ign, j)) == Some(x));
            } else {
                assert(x == opt_seq(q)[idx - prev.len()]);
                assert(q == Some(x));
                assert(spec_entry_enqueue(w, t, es[n - 1], ign_at(ign, n - 1)) == Some(x));
            }
        }
    }
}

/// Step `i` of the walk enqueued task `t` for its `j`-th listing entry.
pub open spec fn step_enqueues(
    w: WalkerV,
    steps: Seq<WalkStepV>,
    i: int,
    j: int,
    t: DirTaskV,
) -> bool {
    match steps[i].listing {
        Ok(es) => 0 <= j < es.len() && spec_entry_enqueue(
            spec_walk(w, steps, i).0,
            steps[i].task,
            es[j],
            ign_at(steps[i].ign, j),
        ) == Some(t),
        Err(_) => false,
    }
}

/// Where a pending directory came from: it was pending at the start, or one
/// of the first `n` steps enqueued it for an entry of its listing.
pub open spec fn task_provenance(w: WalkerV, steps: Seq<WalkStepV>, n: int, t: DirTaskV) -> bool {
    w.frontier.contains(t) || exists|i: int, j: int|
        0 <= i < n && #[trigger] step_enqueues(w, steps, i, j, t)
}

/// Provenance of every listed directory, whole-walk form: in a faithful
/// walk, every directory on any intermediate frontier, and every directory
/// ever handed out for listing, either was pending at the start or was
/// enqueued by an earlier step for one of that step's listing entries.
#[verifier::rlimit(80)]
#[verifier::spinoff_prover]
pub proof fn lemma_walk_task_provenance(w: WalkerV, steps: Seq<WalkStepV>, n: int)
    requires
        walk_steps_valid(w, steps),
        0 <= n <= steps.len(),
    ensures
        forall|k: int|
            0 <= k < spec_walk(w, steps, n).0.frontier.len() ==> task_provenance(
                w,
                steps,
                n,
                #[trigger] spec_walk(w, steps, n).0.frontier[k],
            ),
        forall|i: int| 0 <= i < n ==> task_provenance(w, steps, i, (#[trigger] steps[i]).task),
    decreases n,
{
    if n == 0 {
        assert forall|k: int| 0 <= k < spec_walk(w, steps, 0).0.frontier.len()
            implies task_provenance(w, steps, 0, #[trigger] spec_walk(w, steps, 0).0.frontier[k])
            by {
            assert(w.frontier.contains(w.frontier[k]));
        }
    } else {
        lemma_walk_task_provenance(w, steps, n - 1);
        let v = spec_walk(w, steps, n - 1).0;
        let st = steps[n - 1];
        lemma_walk_config(w, steps, n - 1);
        assert(spec_next_dir(v.frontier, v.max_depth).0 == Some(st.task));
        lemma_next_dir_yields_member(v.frontier, v.max_depth);
        assert(v.frontier.contains(st.task));
        let kt = choose|k: int| 0 <= k < v.frontier.len() && v.frontier[k] == st.task;
        assert(task_provenance(w, steps, n - 1, st.task));
        let fr = spec_next_dir(v.frontier, v.max_depth).1;
        lemma_next_dir_membership(v.frontier, v.max_depth);
        assert forall|k: int| 0 <= k < spec_walk(w, steps, n).0.frontier.len()
            implies task_provenance(w, steps, n, #[trigger] spec_walk(w, steps, n).0.frontier[k])
            by {
            let x = spec_walk(w, steps, n).0.frontier[k];
            let carried = k < fr.len();
            if carried {
                assert(x == fr[k]);
                assert(v.frontier.contains(x));
                let ko = choose|ko: int| 0 <= ko < v.frontier.len() && v.frontier[ko] == x;
                assert(task_provenance(w, steps, n - 1, x));
                lemma_task_provenance_monotone(w, steps, n - 1, n, x);
            } else {
                match st.listing {
                    Err(_) => {
                        assert(false);
                    },
                    Ok(es) => {
                        let added = spec_process_entries(v, st.task, es, st.ign, es.len() as int).1;
                        assert(x == added[k - fr.len()]);
                        lemma_process_entries_enqueue_provenance(
                            v,
                            st.task,
                            es,
                            st.ign,
                            es.len() as int,
                        );
                        let j = choose|j: int|
                            0 <= j < es.len() && spec_entry_enqueue(
                                v,
                                st.task,
                                es[j],
                                ign_at(st.ign, j),
                            ) == Some(x);
                        assert(step_enqueues(w, steps, n - 1, j, x));
                    },
                }
            }
        }
        assert forall|i: int| 0 <= i < n implies task_provenance(
            w,
            steps,
            i,
            (#[trigger] steps[i]).task,
        ) by {
            if i < n - 1 {
            } else {
                assert(task_provenance(w, steps, n - 1, st.task));
            }
        }
    }
}

/// Provenance established by an earlier prefix of a walk stands for every
/// longer prefix.
proof fn lemma_task_provenance_monotone(
    w: WalkerV,
    steps: Seq<WalkStepV>,
    n1: int,
    n2: int,
    t: DirTaskV,
)
    requires
        n1 <= n2,
        task_provenance(w, steps, n1, t),
    ensures
        task_provenance(w, steps, n2, t),
{
    if !w.frontier.contains(t) {
        let (i, j) = choose|i: int, j: int| 0 <= i < n1 && #[trigger] step_enqueues(w, steps, i, j, t);
        assert(0 <= i < n2 && step_enqueues(w, steps, i, j, t));
    }
}

/// Hidden and ignore laws, whole-walk half: a task enqueued by a step of a
/// faithful walk was enqueued for an entry that the filters let pass: not
/// hidden while hidden entries are excluded, and not carrying an ignored
/// verdict while the ignore policy is active. Together with the provenance
/// law this shows that nothing below a hidden or ignored directory is ever
/// listed, so its contents appear in no message.
pub proof fn lemma_enqueued_entry_passed_filters(
    w: WalkerV,
    steps: Seq<WalkStepV>,
    i: int,
    j: int,
    t: DirTaskV,
)
    requires
        0 <= i,
        step_enqueues(w, steps, i, j, t),
    ensures
        match steps[i].listing {
            Ok(es) => {
                &&& !w.show_hidden ==> !spec_entry_hidden(es[j])
                &&& !w.include_gitignored ==> !ign_at(steps[i].ign, j)
            },
            Err(_) => false,
        },
{
    lemma_walk_config(w, steps, i);
}

/// Every message a listing emits is the message effect of one of its entries.
proof fn lemma_process_entries_message_provenance(
    w: WalkerV,
    t: DirTaskV,
    es: Seq<ListingEntryV>,
    ign: Seq<bool>,
    n: int,
)
    ensures
        forall|idx: int|
            0 <= idx < spec_process_entries(w, t, es, ign, n).0.len() ==> exists|j: int|
                0 <= j < n && spec_entry_message(w, t, es[j], ign_at(ign, j)) == Some(
                    #[trigger] spec_process_entries(w, t, es, ign, n).0[idx],
                ),
    decreases n,
{
    if n <= 0 || n > es.len() {
    } else {
        lemma_process_entries_message_provenance(w, t, es, ign, n - 1);
        let prev = spec_process_entries(w, t, es, ign, n - 1).0;
        let m = spec_entry_message(w, t, es[n - 1], ign_at(ign, n - 1));
        assert forall|idx: int|
            0 <= idx < spec_process_entries(w, t, es, ign, n).0.len() implies exists|j: int|
            0 <= j < n && spec_entry_message(w, t, es[j], ign_at(ign, j)) == Some(
                #[trigger] spec_process_entries(w, t, es, ign, n).0[idx],
            ) by {
            let x = spec_process_entries(w, t, es, ign, n).0[idx];
            if idx < prev.len() {
                assert(x == prev[idx]);
                let j = choose|j: int|
                    0 <= j < n - 1 && spec_entry_message(w, t, es[j], ign_at(ign, j)) == Some(
                        prev[idx],
                    );
                assert(spec_entry_message(w, t, es[j], ign_at(ign, j)) == Some(x));
            } else {
                assert(x == opt_seq(m)[idx - prev.len()]);
                assert(spec_entry_message(w, t, es[n - 1], ign_at(ign, n - 1)) == Some(x));
            }
        }
    }
}

/// Step `i` of the walk emitted message `m`: the failure of its failed
/// listing, or the message effect of its `j`-th listing entry.
pub open spec fn step_emits(w: WalkerV, steps: Seq<WalkStepV>, i: int, j: int, m: MessageV) -> bool {
    match steps[i].listing {
        Ok(es) => 0 <= j < es.len() && spec_entry_message(
            spec_walk(w, steps, i).0,
            steps[i].task,
            es[j],
            ign_at(steps[i].ign, j),
        ) == Some(m),
        Err(d) => j == -1 && m == MessageV::Failure(d),
    }
}

/// Where a message came from: one of the first `n` steps emitted it, for a
/// failed listing or for one of its listing entries.
pub open spec fn message_provenance(w: WalkerV, steps: Seq<WalkStepV>, n: int, m: MessageV) -> bool {
    exists|i: int, j: int| 0 <= i < n && #[trigger] step_emits(w, steps, i, j, m)
}

/// Provenance of every message, whole-walk form: each message of a walk is
/// the failure of some step's failed listing or the message effect of some
/// step's entry.
#[verifier::rlimit(80)]
#[verifier::spinoff_prover]
pub proof fn lemma_walk_message_provenance(w: WalkerV, steps: Seq<WalkStepV>, n: int)
    requires
        0 <= n <= steps.len(),
    ensures
        forall|k: int|
            0 <= k < spec_walk(w, steps, n).1.len() ==> message_provenance(
                w,
                steps,
                n,
                #[trigger] spec_walk(w, steps, n).1[k],
            ),
    decreases n,
{
    if n == 0 {
    } else {
        lemma_walk_message_provenance(w, steps, n - 1);
        let v = spec_walk(w, steps, n - 1).0;
        let st = steps[n - 1];
        let prev = spec_walk(w, steps, n - 1).1;
        assert forall|k: int| 0 <= k < spec_walk(w, steps, n).1.len() implies message_provenance(
            w,
            steps,
            n,
            #[trigger] spec_walk(w, steps, n).1[k],
        ) by {
            let x = spec_walk(w, steps, n).1[k];
            if k < prev.len() {
                assert(x == prev[k]);
                assert(message_provenance(w, steps, n - 1, x));
                let (i, j) = choose|i: int, j: int|
                    0 <= i < n - 1 && #[trigger] step_emits(w, steps, i, j, x);
                assert(step_emits(w, steps, i, j, x));
            } else {
                match st.listing {
                    Err(d) => {
                        assert(x == MessageV::Failure(d));
                        assert(step_emits(w, steps, n - 1, -1, x));
                    },
                    Ok(es) => {
                        let emitted = spec_process_entries(v, st.task, es, st.ign, es.len() as int).0;
                        assert(x == emitted[k - prev.len()]);
                        lemma_process_entries_message_provenance(
                            v,
                            st.task,
                            es,
                            st.ign,
                            es.len() as int,
                        );
                        let j = choose|j: int|
                            0 <= j < es.len() && spec_entry_message(
                                v,
                                st.task,
                                es[j],
                                ign_at(st.ign, j),
                            ) == Some(x);
                        assert(step_emits(w, steps, n - 1, j, x));
                    },
                }
            }
        }
    }
}

/// Hidden and ignore laws, whole-walk message half: a message emitted for a
/// listing entry concerns an entry the filters let pass: never one carrying
/// an ignored verdict while the ignore policy is active, and, among entries
/// whose metadata query succeeded, never a hidden one while hidden entries
/// are excluded (an entry whose metadata query failed is reported before the
/// hidden check, as the per-entry spec says). With the provenance law, no
/// message of a whole walk ever concerns such an entry.
pub proof fn lemma_emitted_entry_passed_filters(
    w: WalkerV,
    steps: Seq<WalkStepV>,
    i: int,
    j: int,
    m: MessageV,
)
    requires
        0 <= i,
        step_emits(w, steps, i, j, m),
        steps[i].listing is Ok,
    ensures
        match steps[i].listing {
            Ok(es) => {
                &&& es[j].kind is Ok && !w.show_hidden ==> !spec_entry_hidden(es[j])
                &&& !w.include_gitignored ==> !ign_at(steps[i].ign, j)
            },
            Err(_) => true,
        },
{
    lemma_walk_config(w, steps, i);
}

} // verus!
