//! The navigation comment: one line per published branch of the stack,
//! leaf end first, a marker on the branch the comment belongs to, and the
//! trunk closing the list.

use vstd::prelude::*;

use crate::ctx::StContext;
use crate::errors::StError;
use crate::errors::StResult;
use crate::submit::SubmitCmd;
use crate::tree::TreeView;
use crate::tree::has_name;
use crate::tree::lemma_idx_of_unique;
use crate::tree::node_of;

verus! {

use vstd::string::StringExecFns;

/// The decimal digit characters.
pub open spec fn dec_digit(d: int) -> char {
    if d == 0 {
        '0'
    } else if d == 1 {
        '1'
    } else if d == 2 {
        '2'
    } else if d == 3 {
        '3'
    } else if d == 4 {
        '4'
    } else if d == 5 {
        '5'
    } else if d == 6 {
        '6'
    } else if d == 7 {
        '7'
    } else if d == 8 {
        '8'
    } else {
        '9'
    }
}

/// The decimal representation of `n`, most significant digit first.
pub open spec fn dec_rep(n: int) -> Seq<char>
    decreases n,
{
    if n < 10 {
        seq![dec_digit(n)]
    } else {
        dec_rep(n / 10).push(dec_digit(n % 10))
    }
}

/// One decimal digit as text.
fn digit_str(d: u64) -> (r: &'static str)
    requires
        d < 10,
    ensures
        r@ == seq![dec_digit(d as int)],
{
    let r: &'static str = if d == 0 {
        "0"
    } else if d == 1 {
        "1"
    } else if d == 2 {
        "2"
    } else if d == 3 {
        "3"
    } else if d == 4 {
        "4"
    } else if d == 5 {
        "5"
    } else if d == 6 {
        "6"
    } else if d == 7 {
        "7"
    } else if d == 8 {
        "8"
    } else {
        "9"
    };
    proof {
        reveal_strlit("0");
        reveal_strlit("1");
        reveal_strlit("2");
        reveal_strlit("3");
        reveal_strlit("4");
        reveal_strlit("5");
        reveal_strlit("6");
        reveal_strlit("7");
        reveal_strlit("8");
        reveal_strlit("9");
        assert(r@ =~= seq![dec_digit(d as int)]);
    }
    r
}

/// Formats `n` in decimal.
pub fn u64_to_string(n: u64) -> (r: String)
    ensures
        r@ == dec_rep(n as int),
    decreases n,
{
    if n < 10 {
        digit_str(n).to_owned()
    } else {
        let mut s = u64_to_string(n / 10);
        s.append(digit_str(n % 10));
        proof {
            assert(s@ =~= dec_rep(n as int / 10).push(dec_digit(n as int % 10)));
        }
        s
    }
}

/// The heading of every navigation comment.
pub open spec fn comment_header() -> Seq<char> {
    "## 📚 $\\text{Stack Overview}$\n\n"@ + "Pulls submitted in this stack:\n"@
}

/// The closing line of every navigation comment.
pub open spec fn comment_footer() -> Seq<char> {
    "\n_This comment was automatically generated by [`st`](https://github.com/clabby/st)._"@
}

/// The line for one published branch: its pull request number, and a marker
/// when the comment sits on that branch's own pull request.
pub open spec fn comment_line(pr_number: u64, current: bool) -> Seq<char> {
    "* #"@ + dec_rep(pr_number as int) + (if current {
        " 👈\n"@
    } else {
        "\n"@
    })
}

/// The lines for the stack entries `k` down to `1`, leaf end first; an
/// entry without publication state contributes nothing.
pub open spec fn comment_lines(v: TreeView, current: Seq<char>, stack: Seq<Seq<char>>, k: int) -> Seq<
    char,
>
    decreases k,
{
    if k < 1 {
        Seq::empty()
    } else {
        (if node_of(v, stack[k]).remote is Some {
            comment_line(node_of(v, stack[k]).remote->0.pr_number, stack[k] == current)
        } else {
            Seq::empty()
        }) + comment_lines(v, current, stack, k - 1)
    }
}

/// The whole comment body for `current` over `stack`.
pub open spec fn comment_body(v: TreeView, current: Seq<char>, stack: Seq<Seq<char>>) -> Seq<char> {
    comment_header() + comment_lines(v, current, stack, stack.len() - 1) + "* `"@ + v.trunk + "`\n"@
        + comment_footer()
}

impl SubmitCmd {
    /// Renders the navigation comment for `current_branch`'s pull request:
    /// the published branches of the stack from the leaf end down to (but
    /// not including) the trunk, one line per pull request, the rendered
    /// branch marked, and a final line naming the trunk. Fails with
    /// `BranchNotTracked` when a stack entry is missing from the tree.
    #[verifier::rlimit(100)]
    pub fn render_pr_comment(ctx: &StContext, current_branch: &String, stack: &Vec<String>) -> (r:
        StResult<String>)
        requires
            ctx.wf(),
        ensures
            (r is Ok) == (forall|k: int|
                1 <= k < stack@.len() ==> has_name(ctx.tree@.nodes, #[trigger] stack.deep_view()[k])),
            r matches Ok(s) ==> s@ == comment_body(ctx.tree@, current_branch@, stack.deep_view()),
            r matches Err(e) ==> (e matches StError::BranchNotTracked(n) && !has_name(
                ctx.tree@.nodes,
                n@,
            ) && (exists|k: int|
                1 <= k < stack.deep_view().len() && #[trigger] stack.deep_view()[k] == n@ && (
                forall|j: int|
                    k < j < stack.deep_view().len() ==> has_name(
                        ctx.tree@.nodes,
                        #[trigger] stack.deep_view()[j],
                    )))),
    {
        let ghost v = ctx.tree@;
        let ghost sv = stack.deep_view();
        let mut comment = "## 📚 $\\text{Stack Overview}$\n\n".to_owned();
        comment.append("Pulls submitted in this stack:\n");
        let mut k: usize = stack.len();
        while k > 1
            invariant
                ctx.wf(),
                v == ctx.tree@,
                sv == stack.deep_view(),
                sv.len() == stack@.len(),
                k <= stack@.len() || (stack@.len() <= 1 && k <= 1),
                comment@ + comment_lines(v, current_branch@, sv, k as int - 1) == comment_header()
                    + comment_lines(v, current_branch@, sv, sv.len() - 1),
                forall|j: int| k <= j < sv.len() ==> has_name(v.nodes, #[trigger] sv[j]),
            decreases k,
        {
            k -= 1;
            let ghost pre = comment@;
            let bi = match ctx.tree.find_index(&stack[k]) {
                None => {
                    proof {
                        assert(1 <= (k as int) && (k as int) < sv.len());
                        assert(forall|j: int|
                            (k as int) < j < sv.len() ==> has_name(v.nodes, #[trigger] sv[j]));
                    }
                    return Err(StError::BranchNotTracked(stack[k].clone()));
                },
                Some(i) => i,
            };
            proof {
                lemma_idx_of_unique(v.nodes, sv[k as int], bi as int);
            }
            match &ctx.tree.branches[bi].remote {
                Some(meta) => {
                    comment.append("* #");
                    let num = u64_to_string(meta.pr_number);
                    comment.append(num.as_str());
                    if stack[k] == *current_branch {
                        comment.append(" 👈\n");
                    } else {
                        comment.append("\n");
                    }
                    proof {
                        assert(node_of(v, sv[k as int]).remote == Some(meta@));
                        assert(comment@ =~= pre + comment_line(
                            meta@.pr_number,
                            sv[k as int] == current_branch@,
                        ));
                        assert(comment@ + comment_lines(v, current_branch@, sv, k as int - 1)
                            =~= pre + comment_lines(v, current_branch@, sv, k as int));
                    }
                },
                None => {
                    proof {
                        assert(node_of(v, sv[k as int]).remote is None);
                        assert(comment@ + comment_lines(v, current_branch@, sv, k as int - 1)
                            =~= pre + comment_lines(v, current_branch@, sv, k as int));
                    }
                },
            }
        }
        comment.append("* `");
        comment.append(ctx.tree.trunk_name.as_str());
        comment.append("`\n");
        comment.append(
            "\n_This comment was automatically generated by [`st`](https://github.com/clabby/st)._",
        );
        proof {
            assert(comment_lines(v, current_branch@, sv, 0) =~= Seq::<char>::empty());
            assert(comment@ =~= comment_body(v, current_branch@, sv));
        }
        Ok(comment)
    }
}

} // verus!
