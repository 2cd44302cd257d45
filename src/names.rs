//! Component names: the separator test, name comparison, and how a sequence
//! of names is written as a path.
use vstd::prelude::*;

verus! {

/// Whether `s` holds the path separator `/`.
pub open spec fn has_slash(s: Seq<char>) -> bool {
    exists|i: int| 0 <= i < s.len() && s[i] == '/'
}

/// Tests whether `s` holds the path separator `/`.
pub fn contains_slash(s: &str) -> (r: bool)
    ensures
        r == has_slash(s@),
{
    let n = s.unicode_len();
    let mut i: usize = 0;
    while i < n
        invariant
            n == s@.len(),
            i <= n,
            forall|j: int| 0 <= j < i ==> s@[j] != '/',
        decreases n - i,
    {
        if s.get_char(i) == '/' {
            return true;
        }
        i += 1;
    }
    false
}


/// Tests two names for equality, character by character.
pub fn same_name(a: &str, b: &str) -> (r: bool)
    ensures
        r == (a@ == b@),
{
    let n = a.unicode_len();
    if n != b.unicode_len() {
        return false;
    }
    let mut i: usize = 0;
    while i < n
        invariant
            n == a@.len(),
            n == b@.len(),
            i <= n,
            forall|j: int| 0 <= j < i ==> a@[j] == b@[j],
        decreases n - i,
    {
        if a.get_char(i) != b.get_char(i) {
            return false;
        }
        i += 1;
    }
    assert(a@ =~= b@);
    true
}

/// The character sequences that the strings of `v` hold.
pub open spec fn strs(v: Seq<String>) -> Seq<Seq<char>> {
    v.map_values(|s: String| s@)
}

/// The names of a path, as character sequences.
pub open spec fn names<'a>(p: Seq<&'a str>) -> Seq<Seq<char>> {
    p.map_values(|s: &'a str| s@)
}

/// Each name of `ns` followed by `/`, one after the other.
pub open spec fn joined(ns: Seq<Seq<char>>) -> Seq<char>
    decreases ns.len(),
{
    if ns.len() == 0 {
        Seq::empty()
    } else {
        ns[0] + seq!['/'] + joined(ns.drop_first())
    }
}

/// The path that the names `ns` make, written with a leading `/` and each name
/// followed by `/`.
pub open spec fn render(ns: Seq<Seq<char>>) -> Seq<char> {
    seq!['/'] + joined(ns)
}

} // verus!
