//! Reading the owner and repository name out of a remote URL.

use vstd::prelude::*;

verus! {

use vstd::string::StrSliceExecFns;
use vstd::string::StringExecFns;

/// `s` without a trailing `.git`, and `s` itself when it has none.
pub open spec fn without_git_suffix(s: Seq<char>) -> Seq<char> {
    if s.len() >= 4 && s.subrange(s.len() - 4, s.len() as int) == ".git"@ {
        s.subrange(0, s.len() - 4)
    } else {
        s
    }
}

/// Drops a trailing `.git` from `s`.
pub fn strip_dot_git(s: &String) -> (r: String)
    ensures
        r@ == without_git_suffix(s@),
{
    let n = s.as_str().unicode_len();
    if n >= 4 {
        let tail = s.as_str().substring_char(n - 4, n).to_owned();
        if tail == ".git".to_owned() {
            return s.as_str().substring_char(0, n - 4).to_owned();
        }
    }
    s.clone()
}

/// Splits `s` at the last occurrence of `sep`: the part before it and the
/// separator-free part after it.
pub fn split_last(s: &String, sep: char) -> (r: Option<(String, String)>)
    ensures
        match r {
            Some(pair) => s@ == pair.0@ + seq![sep] + pair.1@ && !pair.1@.contains(sep),
            None => !s@.contains(sep),
        },
{
    let n = s.as_str().unicode_len();
    let mut i: usize = n;
    while i > 0
        invariant
            i <= n,
            n == s@.len(),
            forall|j: int| i <= j < n ==> s@[j] != sep,
        decreases i,
    {
        i -= 1;
        if s.as_str().get_char(i) == sep {
            let left = s.as_str().substring_char(0, i).to_owned();
            let right = s.as_str().substring_char(i + 1, n).to_owned();
            proof {
                assert(s@ =~= left@ + seq![sep] + right@);
                assert forall|j: int| 0 <= j < right@.len() implies right@[j] != sep by {
                    assert(right@[j] == s@[i + 1 + j]);
                }
                if right@.contains(sep) {
                    let j = choose|j: int| 0 <= j < right@.len() && right@[j] == sep;
                }
            }
            return Some((left, right));
        }
    }
    proof {
        if s@.contains(sep) {
            let j = choose|j: int| 0 <= j < s@.len() && s@[j] == sep;
        }
    }
    None
}

/// Reads the owner and repository name out of a remote URL: the last two
/// path segments, with a trailing `.git` dropped. The owner segment may
/// equally be cut off by the `:` of an scp-like URL. Yields nothing when
/// the URL has no path separator at all.
pub fn owner_and_repository(url: &String) -> (r: Option<(String, String)>)
    ensures
        match r {
            Some(pair) => {
                let t = without_git_suffix(url@);
                &&& !pair.1@.contains('/')
                &&& (exists|pre: Seq<char>|
                    t == pre + seq!['/'] + pair.0@ + seq!['/'] + pair.1@ && !pair.0@.contains('/'))
                    || (exists|pre: Seq<char>|
                    t == pre + seq![':'] + pair.0@ + seq!['/'] + pair.1@ && !pair.0@.contains('/')
                        && !pair.0@.contains(':')) || (t == pair.0@ + seq!['/'] + pair.1@
                    && !pair.0@.contains('/') && !pair.0@.contains(':'))
            },
            None => !without_git_suffix(url@).contains('/'),
        },
{
    let t = strip_dot_git(url);
    match split_last(&t, '/') {
        None => None,
        Some((left, repo)) => {
            match split_last(&left, '/') {
                Some(pair) => {
                    proof {
                        assert(t@ =~= pair.0@ + seq!['/'] + pair.1@ + seq!['/'] + repo@);
                        assert(t@ =~= (pair.0@) + seq!['/'] + pair.1@ + seq!['/'] + repo@);
                    }
                    Some((pair.1, repo))
                },
                None => {
                    match split_last(&left, ':') {
                        Some(pair) => {
                            proof {
                                assert(t@ =~= pair.0@ + seq![':'] + pair.1@ + seq!['/'] + repo@);
                                assert forall|j: int|
                                    0 <= j < pair.1@.len() implies pair.1@[j] != '/' by {
                                    assert(left@[pair.0@.len() + 1 + j] == pair.1@[j]);
                                }
                                if pair.1@.contains('/') {
                                    let j = choose|j: int|
                                        0 <= j < pair.1@.len() && pair.1@[j] == '/';
                                }
                            }
                            Some((pair.1, repo))
                        },
                        None => Some((left, repo)),
                    }
                },
            }
        },
    }
}

} // verus!
