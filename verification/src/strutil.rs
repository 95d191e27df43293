//! Small verified string utilities shared by the filter predicates and the
//! walker: character extraction, equality, and path joining on plain strings.

use vstd::prelude::*;
use vstd::string::StrSliceExecFns;
use vstd::string::StringExecFns;

verus! {

/// A path join on plain strings: `dir` and `name` separated by a single `/`,
/// with no separator doubled and an empty `dir` yielding `name` alone.
pub open spec fn spec_join(dir: Seq<char>, name: Seq<char>) -> Seq<char> {
    if dir.len() == 0 {
        name
    } else if dir[dir.len() - 1] == '/' {
        dir + name
    } else {
        dir + seq!['/'] + name
    }
}

/// Collects the characters of a string slice into a vector, so that later
/// logic can index them in constant time.
pub fn chars_of(s: &str) -> (v: Vec<char>)
    ensures
        v@ == s@,
{
    let n: usize = s.unicode_len();
    let mut v: Vec<char> = Vec::new();
    let mut i: usize = 0;
    while i < n
        invariant
            n == s@.len(),
            i <= n,
            v@ == s@.subrange(0, i as int),
        decreases n - i,
    {
        v.push(s.get_char(i));
        assert(v@ =~= s@.subrange(0, i + 1 as int));
        i = i + 1;
    }
    assert(v@ =~= s@);
    v
}

/// Joins a directory path and an entry name with a single `/` separator.
pub fn join_path(dir: &str, name: &str) -> (r: String)
    ensures
        r@ == spec_join(dir@, name@),
{
    if dir.unicode_len() == 0 {
        let mut r = String::new();
        r.append(name);
        assert(r@ =~= spec_join(dir@, name@));
        r
    } else {
        let last = dir.get_char(dir.unicode_len() - 1);
        let mut r = String::new();
        r.append(dir);
        if last != '/' {
            r.append("/");
            proof {
                reveal_strlit("/");
            }
            assert(r@ =~= dir@ + seq!['/']);
        }
        r.append(name);
        assert(r@ =~= spec_join(dir@, name@));
        r
    }
}

} // verus!
