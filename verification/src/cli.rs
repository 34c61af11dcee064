//! The command-line surface: the parsed arguments and the first-run
//! decisions that need no terminal of their own.

use vstd::prelude::*;

use crate::config::StConfig;
use crate::set::SetCmd;
use crate::submit::SubmitCmd;

verus! {

/// The parsed command line.
pub struct Cli {
    /// Verbosity level.
    pub v: u8,
    /// The subcommand to run.
    pub subcommand: Subcommands,
}

/// The subcommands.
pub enum Subcommands {
    /// Edit the default remote or assignee.
    Config(SetCmd),
    /// Submit the current stack to the remote host.
    Submit(SubmitCmd),
}

impl Cli {
    /// Decides whether a loaded configuration can be used as it stands:
    /// the answer is the configuration itself when one was loaded and it
    /// validates, and nothing otherwise — in which case the caller walks
    /// the user through first-time setup.
    pub fn load_cfg_or_initialize(loaded: Option<StConfig>) -> (r: Option<StConfig>)
        ensures
            match r {
                Some(c) => loaded matches Some(l) && c == l && c.valid(),
                None => loaded is None || !loaded->0.valid(),
            },
    {
        match loaded {
            Some(c) => match c.validate() {
                Ok(_) => Some(c),
                Err(_) => None,
            },
            None => None,
        }
    }
}

/// What the remote-selection prompt should do: with exactly one remote it
/// is chosen outright; otherwise the user picks from the list, with
/// `origin` moved to the front when present.
pub enum RemoteSelection {
    /// The only remote: select it without prompting.
    Single(String),
    /// The choices to offer, `origin` first when present.
    Choose(Vec<String>),
}

/// The position of the first occurrence of `n` in `s` (the length when
/// absent).
pub open spec fn first_index(s: Seq<Seq<char>>, n: Seq<char>) -> int
    decreases s.len(),
{
    if s.len() == 0 {
        0
    } else if s[0] == n {
        0
    } else {
        1 + first_index(s.drop_first(), n)
    }
}

/// The choice list with the first `origin` entry moved to the front.
pub open spec fn origin_first(s: Seq<Seq<char>>) -> Seq<Seq<char>> {
    if s.contains("origin"@) {
        seq!["origin"@] + s.remove(first_index(s, "origin"@))
    } else {
        s
    }
}

/// The first occurrence found by `first_index` really is one, when the
/// name occurs at all.
proof fn lemma_first_index(s: Seq<Seq<char>>, n: Seq<char>)
    requires
        s.contains(n),
    ensures
        0 <= first_index(s, n) < s.len(),
        s[first_index(s, n)] == n,
        forall|j: int| 0 <= j < first_index(s, n) ==> s[j] != n,
    decreases s.len(),
{
    if s.len() == 0 {
    } else if s[0] == n {
    } else {
        assert(s.drop_first().contains(n)) by {
            let k = choose|k: int| 0 <= k < s.len() && s[k] == n;
            assert(s.drop_first()[k - 1] == s[k]);
        }
        lemma_first_index(s.drop_first(), n);
        assert forall|j: int| 0 <= j < first_index(s, n) implies s[j] != n by {
            if j > 0 {
                assert(s.drop_first()[j - 1] == s[j]);
            }
        }
    }
}

/// Plans the remote-name selection over the repository's remotes: a single
/// remote is selected by itself; a longer list is offered for choice with
/// `origin` moved to the front when present.
pub fn plan_remote_selection(remote_names: Vec<String>) -> (r: RemoteSelection)
    ensures
        remote_names@.len() == 1 ==> (r matches RemoteSelection::Single(n) && n@
            == remote_names.deep_view()[0]),
        remote_names@.len() != 1 ==> (r matches RemoteSelection::Choose(v) && v.deep_view()
            == origin_first(remote_names.deep_view())),
{
    let ghost s = remote_names.deep_view();
    if remote_names.len() == 1 {
        let mut remote_names = remote_names;
        match remote_names.pop() {
            Some(n) => RemoteSelection::Single(n),
            None => {
                proof {
                    assert(false);
                }
                RemoteSelection::Choose(remote_names)
            },
        }
    } else {
        let origin = "origin".to_owned();
        match crate::tree::find_name_pos(&remote_names, &origin) {
            Some(k) => {
                proof {
                    assert(s[k as int] == origin.view());
                    assert(s.contains("origin"@));
                    lemma_first_index(s, "origin"@);
                    let fi = first_index(s, "origin"@);
                    if fi < k as int {
                        assert(s[fi] != "origin"@);
                    } else if (k as int) < fi {
                        assert(s[k as int] != "origin"@);
                    }
                }
                let mut names = remote_names;
                let found = names.remove(k);
                names.insert(0, found);
                proof {
                    assert(names.deep_view() =~= seq!["origin"@] + s.remove(k as int));
                }
                RemoteSelection::Choose(names)
            },
            None => {
                proof {
                    assert(!s.contains("origin"@));
                }
                RemoteSelection::Choose(remote_names)
            },
        }
    }
}

} // verus!
