//! The filter predicates applied to each file before it is reported: the
//! naive wildcard-stripping name pattern, the hidden-name test, and the
//! case-insensitive extension restriction.
//!
//! The pattern match is deliberately not a glob engine: a pattern equal to
//! the single wildcard character matches everything, and any other pattern
//! matches a name exactly when the name contains, as a contiguous substring,
//! the pattern with every wildcard character removed. Multiple wildcards,
//! anchoring and character classes are unsupported by design.

use vstd::prelude::*;
use vstd::string::StrSliceExecFns;
use crate::strutil::chars_of;

verus! {

/// A name counts as hidden when it begins with the `.` marker character.
pub open spec fn spec_is_hidden(name: Seq<char>) -> bool {
    name.len() > 0 && name[0] == '.'
}

/// The pattern with every wildcard character removed.
pub open spec fn strip_stars(pat: Seq<char>) -> Seq<char> {
    pat.filter(|c: char| c != '*')
}

/// `sub` occurs in `s` starting at index `i`.
pub open spec fn matches_at(s: Seq<char>, sub: Seq<char>, i: int) -> bool {
    0 <= i && i + sub.len() <= s.len() && s.subrange(i, i + sub.len() as int) == sub
}

/// `sub` occurs somewhere in `s` as a contiguous substring.
pub open spec fn has_substring(s: Seq<char>, sub: Seq<char>) -> bool {
    exists|i: int| matches_at(s, sub, i)
}

/// What the naive pattern match returns: true for the universal wildcard
/// pattern, otherwise a substring test against the wildcard-stripped pattern.
pub open spec fn spec_pattern_match(name: Seq<char>, pat: Seq<char>) -> bool {
    pat == seq!['*'] || has_substring(name, strip_stars(pat))
}

/// Reports whether `name` is hidden, by the leading-marker convention.
pub fn is_hidden(name: &str) -> (r: bool)
    ensures
        r == spec_is_hidden(name@),
{
    if name.is_empty() {
        false
    } else {
        name.get_char(0) == '.'
    }
}

/// Removes every `*` from the pattern characters.
fn strip_stars_exec(pat: &Vec<char>) -> (out: Vec<char>)
    ensures
        out@ == strip_stars(pat@),
{
    let mut out: Vec<char> = Vec::new();
    let mut i: usize = 0;
    while i < pat.len()
        invariant
            i <= pat@.len(),
            out@ == strip_stars(pat@.subrange(0, i as int)),
        decreases pat@.len() - i,
    {
        proof {
            reveal(Seq::filter);
            assert(pat@.subrange(0, i + 1 as int).drop_last() =~= pat@.subrange(0, i as int));
            assert(pat@.subrange(0, i + 1 as int).last() == pat@[i as int]);
        }
        if pat[i] != '*' {
            out.push(pat[i]);
        }
        i = i + 1;
    }
    assert(pat@.subrange(0, pat@.len() as int) =~= pat@);
    out
}

/// Tests whether `sub` occurs in `s` starting exactly at index `i`.
fn match_at_exec(s: &Vec<char>, sub: &Vec<char>, i: usize) -> (r: bool)
    requires
        i + sub@.len() <= s@.len(),
    ensures
        r == matches_at(s@, sub@, i as int),
{
    let n: usize = s.len();
    let m: usize = sub.len();
    let mut j: usize = 0;
    while j < m
        invariant
            n == s@.len(),
            m == sub@.len(),
            i + m <= n,
            j <= m,
            forall|t: int| 0 <= t < j ==> s@[i + t] == sub@[t],
        decreases m - j,
    {
        if s[i + j] != sub[j] {
            proof {
                if matches_at(s@, sub@, i as int) {
                    assert(s@.subrange(i as int, i + sub@.len() as int)[j as int] == s@[i + j]);
                }
            }
            return false;
        }
        j = j + 1;
    }
    assert(s@.subrange(i as int, i + sub@.len() as int) =~= sub@);
    true
}

/// Tests whether `sub` occurs anywhere in `s` as a contiguous substring.
fn contains_sub(s: &Vec<char>, sub: &Vec<char>) -> (r: bool)
    ensures
        r == has_substring(s@, sub@),
{
    if sub.len() > s.len() {
        assert(!has_substring(s@, sub@));
        return false;
    }
    if sub.len() == 0 {
        assert(s@.subrange(0, 0) =~= sub@);
        assert(matches_at(s@, sub@, 0));
        return true;
    }
    let bound: usize = s.len() - sub.len();
    let mut i: usize = 0;
    while i <= bound
        invariant
            0 < sub@.len() <= s@.len(),
            bound == s@.len() - sub@.len(),
            bound < usize::MAX,
            i <= bound + 1,
            forall|k: int| 0 <= k < i ==> !matches_at(s@, sub@, k),
        decreases bound + 1 - i,
    {
        if match_at_exec(s, sub, i) {
            return true;
        }
        i = i + 1;
    }
    assert(forall|k: int| matches_at(s@, sub@, k) ==> 0 <= k <= bound);
    false
}

/// The naive pattern filter: the single-wildcard pattern matches every name;
/// any other pattern matches names containing its wildcard-stripped form.
pub fn naive_pattern_match(name: &str, pat: &str) -> (r: bool)
    ensures
        r == spec_pattern_match(name@, pat@),
{
    let pv = chars_of(pat);
    if pv.len() == 1 && pv[0] == '*' {
        assert(pat@ =~= seq!['*']);
        return true;
    }
    assert(pat@ != seq!['*']) by {
        if pat@ == seq!['*'] {
            assert(pv@.len() == 1 && pv@[0] == '*');
        }
    }
    let stripped = strip_stars_exec(&pv);
    let nv = chars_of(name);
    contains_sub(&nv, &stripped)
}

/// Universal wildcard law: the pattern consisting of the single wildcard
/// character matches every name.
pub proof fn lemma_star_matches_all(name: Seq<char>)
    ensures
        spec_pattern_match(name, seq!['*']),
{
}

/// A pattern in which every character passes the filter is unchanged by
/// wildcard stripping.
proof fn lemma_strip_stars_no_stars(pat: Seq<char>)
    requires
        forall|i: int| 0 <= i < pat.len() ==> pat[i] != '*',
    ensures
        strip_stars(pat) == pat,
    decreases pat.len(),
{
    reveal(Seq::filter);
    if pat.len() > 0 {
        lemma_strip_stars_no_stars(pat.drop_last());
        assert(strip_stars(pat) =~= pat);
    } else {
        assert(strip_stars(pat) =~= pat);
    }
}

/// The ASCII-lowercased form of one character; characters outside `A`..`Z`
/// are unchanged.
pub open spec fn lower_char(c: char) -> char {
    if 'A' <= c && c <= 'Z' {
        ((c as u8) + 32) as char
    } else {
        c
    }
}

/// The character-wise ASCII-lowercased form of a string.
pub open spec fn lower_seq(s: Seq<char>) -> Seq<char> {
    Seq::new(s.len(), |i: int| lower_char(s[i]))
}

/// Two strings are equal up to ASCII case.
pub open spec fn eq_ignore_case(a: Seq<char>, b: Seq<char>) -> bool {
    lower_seq(a) == lower_seq(b)
}

/// The extension of a file name: the portion after the last `.`, except that
/// a name with no `.`, a name whose only `.` leads it, and the special name
/// `..` have none.
pub open spec fn spec_extension_of(name: Seq<char>) -> Option<Seq<char>> {
    if name == seq!['.', '.'] {
        None
    } else {
        match name.index_of_last('.') {
            Some(j) => if j == 0 {
                None
            } else {
                Some(name.subrange(j + 1, name.len() as int))
            },
            None => None,
        }
    }
}

/// ASCII-lowercases one character.
fn to_lower_char(c: char) -> (r: char)
    ensures
        r == lower_char(c),
{
    if 'A' <= c && c <= 'Z' {
        assert(c as u32 <= 90);
        ((c as u8) + 32) as char
    } else {
        c
    }
}

/// Compares two character vectors up to ASCII case.
fn chars_eq_ignore_case(a: &Vec<char>, b: &Vec<char>) -> (r: bool)
    ensures
        r == eq_ignore_case(a@, b@),
{
    let n: usize = a.len();
    if n != b.len() {
        assert(lower_seq(a@).len() != lower_seq(b@).len());
        return false;
    }
    let mut i: usize = 0;
    while i < n
        invariant
            n == a@.len() && n == b@.len(),
            i <= n,
            forall|t: int| 0 <= t < i ==> lower_char(a@[t]) == lower_char(b@[t]),
        decreases n - i,
    {
        if to_lower_char(a[i]) != to_lower_char(b[i]) {
            assert(lower_seq(a@)[i as int] != lower_seq(b@)[i as int]);
            return false;
        }
        i = i + 1;
    }
    assert(lower_seq(a@) =~= lower_seq(b@));
    true
}

/// Extracts the extension of a file name: the portion after the last `.`,
/// unless the only `.` leads the name or the name is `..`.
pub fn extension_of<'a>(name: &'a str) -> (r: Option<&'a str>)
    ensures
        r.deep_view() == spec_extension_of(name@),
{
    let v = chars_of(name);
    let n: usize = v.len();
    if n == 2 && v[0] == '.' && v[1] == '.' {
        assert(name@ =~= seq!['.', '.']);
        return None;
    }
    assert(name@ != seq!['.', '.']) by {
        if name@ == seq!['.', '.'] {
            assert(v@.len() == 2 && v@[0] == '.' && v@[1] == '.');
        }
    }
    proof {
        name@.index_of_last_ensures('.');
    }
    let mut k: usize = n;
    while k > 0
        invariant
            n == name@.len() && v@ == name@,
            name@ != seq!['.', '.'],
            k <= n,
            forall|t: int| k <= t < n ==> name@[t] != '.',
        decreases k,
    {
        if v[k - 1] == '.' {
            assert(name@.index_of_last('.') == Some(k - 1 as int)) by {
                name@.index_of_last_ensures('.');
                assert(name@.contains(name@[k - 1 as int]));
            }
            if k - 1 == 0 {
                return None;
            }
            let e = name.substring_char(k, n);
            assert(e@ == name@.subrange(k as int, name@.len() as int));
            assert(Some(e).deep_view() == Some(e@));
            assert(spec_extension_of(name@) == Some(e@)) by {
                assert(name@.index_of_last('.') == Some(k - 1 as int));
                assert(k - 1 as int + 1 == k as int);
                assert(name@.subrange(k - 1 as int + 1, name@.len() as int)
                    == name@.subrange(k as int, name@.len() as int));
            }
            return Some(e);
        }
        k = k - 1;
    }
    assert(name@.index_of_last('.') is None) by {
        name@.index_of_last_ensures('.');
        if name@.contains('.') {
            let w = choose|w: int| 0 <= w < name@.len() && name@[w] == '.';
            assert(name@[w] != '.');
        }
    }
    None
}

/// `e` equals some member of `list`, up to ASCII case.
pub open spec fn ext_in_list(e: Seq<char>, list: Seq<Seq<char>>) -> bool {
    exists|k: int| 0 <= k < list.len() && eq_ignore_case(list[k], e)
}

/// The extension restriction: with no allowed set every file passes; with one,
/// the file's extension must equal an allowed entry up to ASCII case, and a
/// file without an extension never passes.
pub open spec fn spec_ext_allowed(name: Seq<char>, exts: Option<Seq<Seq<char>>>) -> bool {
    match exts {
        None => true,
        Some(list) => match spec_extension_of(name) {
            Some(e) => ext_in_list(e, list),
            None => false,
        },
    }
}

/// The combined file filter: the name must pass the pattern match and the
/// extension restriction.
pub open spec fn spec_file_matches(
    name: Seq<char>,
    pat: Seq<char>,
    exts: Option<Seq<Seq<char>>>,
) -> bool {
    spec_pattern_match(name, pat) && spec_ext_allowed(name, exts)
}

/// Applies the pattern filter and the extension filter to one file name.
pub fn file_matches(name: &str, pattern: &str, extensions: &Option<Vec<String>>) -> (r: bool)
    ensures
        r == spec_file_matches(name@, pattern@, extensions.deep_view()),
{
    if !naive_pattern_match(name, pattern) {
        return false;
    }
    match extensions {
        None => true,
        Some(list) => {
            match extension_of(name) {
                None => false,
                Some(e) => {
                    let ev = chars_of(e);
                    let mut i: usize = 0;
                    while i < list.len()
                        invariant
                            spec_pattern_match(name@, pattern@),
                            extensions.deep_view() == Some(list.deep_view()),
                            ev@ == spec_extension_of(name@).unwrap(),
                            spec_extension_of(name@) is Some,
                            i <= list@.len(),
                            forall|k: int| 0 <= k < i
                                ==> !eq_ignore_case(list@[k]@, ev@),
                        decreases list@.len() - i,
                    {
                        let av = chars_of(list[i].as_str());
                        if chars_eq_ignore_case(&av, &ev) {
                            assert(list.deep_view()[i as int] == list@[i as int]@);
                            assert(eq_ignore_case(list.deep_view()[i as int], ev@));
                            assert(ext_in_list(ev@, list.deep_view()));
                            assert(extensions.deep_view() == Some(list.deep_view()));
                            return true;
                        }
                        i = i + 1;
                    }
                    assert(forall|k: int| 0 <= k < list@.len()
                        ==> list.deep_view()[k] == list@[k]@);
                    false
                },
            }
        },
    }
}

/// Extension-restriction law, first half: when an allowed set is configured,
/// a file name with no extension never passes the combined filter.
pub proof fn lemma_no_extension_never_matches(
    name: Seq<char>,
    pat: Seq<char>,
    exts: Seq<Seq<char>>,
)
    requires
        spec_extension_of(name) is None,
    ensures
        !spec_file_matches(name, pat, Some(exts)),
{
}

/// Extension-restriction law, second half: a file name whose extension equals
/// some allowed entry up to ASCII case passes the combined filter whenever its
/// name passes the pattern match.
pub proof fn lemma_case_insensitive_extension_matches(
    name: Seq<char>,
    pat: Seq<char>,
    exts: Seq<Seq<char>>,
    k: int,
)
    requires
        spec_pattern_match(name, pat),
        spec_extension_of(name) is Some,
        0 <= k < exts.len(),
        eq_ignore_case(exts[k], spec_extension_of(name).unwrap()),
    ensures
        spec_file_matches(name, pat, Some(exts)),
{
    match spec_extension_of(name) {
        Some(e) => {
            assert(eq_ignore_case(exts[k], e));
            assert(ext_in_list(e, exts));
        },
        None => {
            assert(false);
        },
    }
}

/// Substring equivalence law: a pattern free of wildcard characters matches
/// exactly the names that contain it as a contiguous substring.
pub proof fn lemma_substring_equivalence(name: Seq<char>, pat: Seq<char>)
    requires
        forall|i: int| 0 <= i < pat.len() ==> pat[i] != '*',
    ensures
        spec_pattern_match(name, pat) == has_substring(name, pat),
{
    lemma_strip_stars_no_stars(pat);
    if pat == seq!['*'] {
        assert(pat[0] == '*');
    }
}



} // verus!
