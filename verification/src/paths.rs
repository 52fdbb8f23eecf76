//! A model of relative filesystem paths as strings with `/` separators:
//! the parent directory of a chapter's source file, the number of
//! directory levels it lies below the book source root, and joining.

use vstd::prelude::*;
use vstd::string::*;

verus! {

/// The index of the last occurrence of `c` in `s`, or `-1` if there is none.
pub open spec fn last_index(s: Seq<char>, c: char) -> int
    decreases s.len(),
{
    if s.len() == 0 {
        -1
    } else if s.last() == c {
        s.len() - 1
    } else {
        last_index(s.drop_last(), c)
    }
}

pub proof fn lemma_last_index(s: Seq<char>, c: char)
    ensures
        -1 <= last_index(s, c) < s.len(),
        last_index(s, c) >= 0 ==> s[last_index(s, c)] == c,
    decreases s.len(),
{
    if s.len() > 0 && s.last() != c {
        lemma_last_index(s.drop_last(), c);
    }
}

/// Find the last occurrence of `c` in `s`.
pub fn last_index_of(s: &str, c: char) -> (r: Option<usize>)
    ensures
        match r {
            Some(i) => last_index(s@, c) == i,
            None => last_index(s@, c) == -1,
        },
{
    let n = s.unicode_len();
    let mut j: usize = n;
    proof {
        assert(s@.take(n as int) =~= s@);
    }
    while j > 0
        invariant
            j <= n,
            n == s@.len(),
            last_index(s@, c) == last_index(s@.take(j as int), c),
        decreases j,
    {
        let ch = s.get_char(j - 1);
        proof {
            let tj = s@.take(j as int);
            assert(tj.last() == s@[j - 1]);
            if s@[j - 1] != c {
                assert(tj.drop_last() =~= s@.take(j - 1));
            }
        }
        if ch == c {
            return Some(j - 1);
        }
        j -= 1;
    }
    proof {
        assert(s@.take(0) =~= Seq::<char>::empty());
    }
    None
}

/// The parent directory of a relative path: everything before the last
/// `/`, or the empty string for a path with a single component.
pub open spec fn spec_parent(path: Seq<char>) -> Seq<char> {
    let p = last_index(path, '/');
    if p < 0 {
        Seq::empty()
    } else {
        path.subrange(0, p)
    }
}

/// The parent directory of a relative path.
pub fn parent_of(path: &str) -> (r: String)
    ensures
        r@ == spec_parent(path@),
{
    proof {
        lemma_last_index(path@, '/');
    }
    match last_index_of(path, '/') {
        None => String::new(),
        Some(i) => path.substring_char(0, i).to_owned(),
    }
}

/// How many times `c` occurs in `s`.
pub open spec fn count_char(s: Seq<char>, c: char) -> nat
    decreases s.len(),
{
    if s.len() == 0 {
        0
    } else {
        count_char(s.drop_last(), c) + if s.last() == c {
            1nat
        } else {
            0nat
        }
    }
}

/// The nesting depth of a chapter whose source file sits in the directory
/// `parent`, relative to the book source root: the number of path
/// components of `parent`. The root itself has depth zero.
pub open spec fn spec_depth(parent: Seq<char>) -> nat {
    if parent.len() == 0 {
        0
    } else {
        count_char(parent, '/') + 1
    }
}

/// Two relative paths joined with a `/` separator; an empty side
/// contributes nothing.
pub open spec fn spec_join(a: Seq<char>, b: Seq<char>) -> Seq<char> {
    if a.len() == 0 {
        b
    } else if b.len() == 0 {
        a
    } else {
        a + "/"@ + b
    }
}

/// Join two relative paths with a `/` separator.
pub fn join_path(a: &str, b: &str) -> (r: String)
    ensures
        r@ == spec_join(a@, b@),
{
    if a.is_empty() {
        b.to_owned()
    } else if b.is_empty() {
        a.to_owned()
    } else {
        let mut out = a.to_owned();
        out.append("/");
        out.append(b);
        out
    }
}

} // verus!
