//! Integration with the gitignore-style rule matcher of the `ignore` crate.
//!
//! Only the single rule file at the root of a search is consulted. A missing
//! file, an unreadable file, and a file that fails to compile all yield "no
//! ruleset", which excludes nothing: the search silently degrades rather than
//! failing. The compiled ruleset is queried with paths relative to the search
//! root, so its verdicts do not depend on where the root itself lives.

use vstd::prelude::*;
use crate::strutil::join_path;
use ignore::gitignore::Gitignore;
use ignore::gitignore::GitignoreBuilder;

verus! {

#[verifier::external_type_specification]
#[verifier::external_body]
pub struct ExGitignore(Gitignore);

#[verifier::external_type_specification]
#[verifier::external_body]
pub struct ExGitignoreBuilder(GitignoreBuilder);

/// A relative path in the form the matcher accepts without panicking: it does
/// not begin with the separator and contains no doubled separator, so no
/// prefix-stripping inside the matcher can leave it looking absolute.
pub open spec fn rel_path_wf(p: Seq<char>) -> bool {
    &&& p.len() > 0 ==> p[0] != '/'
    &&& forall|i: int| 0 <= i < p.len() - 1 ==> !(#[trigger] p[i] == '/' && p[i + 1] == '/')
}

/// Relies on std's Path::is_file: reports whether the path currently names an
/// existing regular file; the result depends on the state of the filesystem.
#[verifier::external_body]
fn path_is_file(p: &String) -> bool {
    std::path::Path::new(p.as_str()).is_file()
}

/// Relies on ignore's GitignoreBuilder::new: constructs an empty builder
/// whose compiled rules will be matched relative to the given root.
#[verifier::external_body]
fn builder_new(root: &str) -> GitignoreBuilder {
    GitignoreBuilder::new(root)
}

/// Relies on ignore's GitignoreBuilder::add: reads the rule file at the given
/// path and adds each of its lines as a rule; returns true exactly when the
/// crate reported an error (file unreadable, or some line failed to parse).
#[verifier::external_body]
fn builder_add_file(b: &mut GitignoreBuilder, path: &String) -> bool {
    match b.add(path.as_str()) {
        Some(_) => true,
        None => false,
    }
}

/// Relies on ignore's GitignoreBuilder::build: compiles the added rules into
/// a matcher; a compilation error is folded to None.
#[verifier::external_body]
fn builder_build(b: &GitignoreBuilder) -> Option<Gitignore> {
    match b.build() {
        Ok(g) => Some(g),
        Err(_) => None,
    }
}

/// The matcher's verdict on a path: whether the compiled ruleset excludes
/// the path, or an ancestor of it, without a later negating rule re-including
/// it. The verdict is a function of the matcher value, the path and the
/// directory flag alone, so it bears a name; what it decides on given rules
/// is the ignore crate's own business and is not restated here.
pub uninterp spec fn gitignore_verdict(gi: Gitignore, rel: Seq<char>, is_dir: bool) -> bool;

/// Relies on ignore's Gitignore::matched_path_or_any_parents: reports whether
/// the path, or any ancestor of it, is matched by an exclusion rule and not
/// re-included by a later negating rule; the result depends only on the
/// matcher's compiled rules, the path and the directory flag. That method
/// panics on a path that still looks absolute after its own prefix
/// stripping; the precondition rules such paths out.
#[verifier::external_body]
fn matcher_is_ignored(gi: &Gitignore, rel: &String, is_dir: bool) -> (r: bool)
    requires
        rel_path_wf(rel@),
    ensures
        r == gitignore_verdict(*gi, rel@, is_dir),
{
    match gi.matched_path_or_any_parents(rel.as_str(), is_dir) {
        ignore::Match::Ignore(_) => true,
        _ => false,
    }
}

/// Builds the ignore ruleset for a search root: compiles `root/.gitignore`
/// when that is a regular file, and yields no ruleset when the file is
/// absent, unreadable, or fails to compile. The compiled rules are matched
/// against paths relative to the root.
pub fn build_gitignore(root: &String) -> Option<Gitignore> {
    let gi_path = join_path(root.as_str(), ".gitignore");
    if !path_is_file(&gi_path) {
        return None;
    }
    let mut b = builder_new(".");
    if builder_add_file(&mut b, &gi_path) {
        return None;
    }
    builder_build(&b)
}

/// Whether the entry at `rel` (a path relative to the search root) is
/// excluded by the ruleset; with no ruleset nothing is ever excluded, and
/// with one the answer is exactly the matcher's verdict on the path.
pub fn is_gitignored(rel: &String, is_dir: bool, gitignore: &Option<Gitignore>) -> (r: bool)
    requires
        rel_path_wf(rel@),
    ensures
        match gitignore {
            None => r == false,
            Some(g) => r == gitignore_verdict(*g, rel@, is_dir),
        },
{
    match gitignore {
        Some(gi) => matcher_is_ignored(gi, rel, is_dir),
        None => false,
    }
}

} // verus!
