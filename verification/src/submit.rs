//! The submission engine: which remote a pull request targets, and what has
//! to happen to each branch of the stack — push, create, update base, or
//! nothing — from the facts observed on the remote host.

use vstd::prelude::*;

use crate::ctx::StContext;
use crate::errors::StResult;
use crate::tree::RemoteMetaView;
use crate::tree::TrackedBranch;
use crate::tree::TreeView;
use crate::tree::has_name;
use crate::tree::lemma_idx_of_unique;
use crate::tree::node_of;

verus! {

use vstd::string::StringExecFns;

/// Arguments for the `submit` subcommand.
pub struct SubmitCmd {
    /// Force the push of every branch, like a plain force-push.
    pub force: bool,
}

/// The publication state of the first tracked child carrying any, walking
/// the children in list order.
pub open spec fn first_child_remote(v: TreeView, kids: Seq<Seq<char>>) -> Option<RemoteMetaView>
    decreases kids.len(),
{
    if kids.len() == 0 {
        None
    } else if has_name(v.nodes, kids[0]) && node_of(v, kids[0]).remote is Some {
        node_of(v, kids[0]).remote
    } else {
        first_child_remote(v, kids.drop_first())
    }
}

/// The remote a pull request for `branch` should target: the remote already
/// recorded on a child's pull request when any child has one, and otherwise
/// the empty name, which throughout the tree means "the default remote".
pub open spec fn target_remote_spec(v: TreeView, branch: Seq<char>) -> Seq<char> {
    if has_name(v.nodes, branch) {
        match first_child_remote(v, node_of(v, branch).children) {
            Some(m) => m.remote_name,
            None => Seq::empty(),
        }
    } else {
        Seq::empty()
    }
}

impl SubmitCmd {
    /// Determines the target remote for `branch`'s pull request: a fork
    /// choice already recorded on any child propagates; otherwise the empty
    /// name stands for the default remote, so that the base ref of a pull
    /// request against the default remote stays the bare parent name. This
    /// never fails.
    #[verifier::rlimit(60)]
    pub fn determine_target_pr_remote(ctx: &StContext, branch: &String) -> (r: StResult<String>)
        requires
            ctx.wf(),
        ensures
            r matches Ok(name) && name@ == target_remote_spec(ctx.tree@, branch@),
    {
        let ghost v = ctx.tree@;
        let bi = match ctx.tree.find_index(branch) {
            None => {
                return Ok(String::new());
            },
            Some(i) => i,
        };
        proof {
            lemma_idx_of_unique(v.nodes, branch@, bi as int);
        }
        let ghost kids = v.nodes[bi as int].children;
        let children = &ctx.tree.branches[bi].children;
        proof {
            assert(kids.skip(0) =~= kids);
        }
        let mut k: usize = 0;
        while k < children.len()
            invariant
                v.names_unique(),
                v == ctx.tree@,
                bi < v.nodes.len(),
                v.nodes[bi as int].name == branch@,
                kids == v.nodes[bi as int].children,
                kids == children.deep_view(),
                k <= kids.len(),
                first_child_remote(v, kids.skip(k as int)) == first_child_remote(v, kids),
            decreases kids.len() - k,
        {
            let ghost rest = kids.skip(k as int);
            proof {
                assert(rest[0] == kids[k as int]);
                assert(rest.drop_first() =~= kids.skip(k as int + 1));
            }
            match ctx.tree.find_index(&children[k]) {
                Some(ci) => {
                    proof {
                        lemma_idx_of_unique(v.nodes, kids[k as int], ci as int);
                    }
                    match &ctx.tree.branches[ci].remote {
                        Some(m) => {
                            proof {
                                assert(node_of(v, kids[k as int]).remote == Some(m@));
                                assert(first_child_remote(v, rest) == Some(m@));
                            }
                            return Ok(m.remote_name.clone());
                        },
                        None => {
                            proof {
                                assert(node_of(v, kids[k as int]).remote is None);
                            }
                        },
                    }
                },
                None => {},
            }
            k += 1;
        }
        proof {
            assert(kids.skip(kids.len() as int) =~= Seq::<Seq<char>>::empty());
            lemma_idx_of_unique(v.nodes, branch@, bi as int);
        }
        Ok(String::new())
    }

    /// The remote a branch is pushed to: the resolved target where one was
    /// inherited, the default remote where the target is the empty name.
    pub fn effective_push_remote(target_remote_name: &String, default_remote: &String) -> (r:
        String)
        ensures
            target_remote_name@.len() == 0 ==> r@ == default_remote@,
            target_remote_name@.len() != 0 ==> r@ == target_remote_name@,
    {
        let empty = String::new();
        if *target_remote_name == empty {
            proof {
                assert(target_remote_name@.len() == 0);
            }
            default_remote.clone()
        } else {
            proof {
                if target_remote_name@.len() == 0 {
                    assert(target_remote_name@ =~= empty@);
                }
            }
            target_remote_name.clone()
        }
    }

    /// Builds the base ref for a pull request: the bare parent branch name
    /// when the target remote is the default one (named by the empty
    /// string), the owner-qualified form otherwise.
    pub fn base_parent_ref(target_remote_name: &String, target_owner: &String, parent: &String) -> (r:
        String)
        ensures
            target_remote_name@.len() == 0 ==> r@ == parent@,
            target_remote_name@.len() != 0 ==> r@ == target_owner@ + ":"@ + parent@,
    {
        let empty = String::new();
        if *target_remote_name == empty {
            proof {
                assert(target_remote_name@.len() == 0);
            }
            parent.clone()
        } else {
            proof {
                if target_remote_name@.len() == 0 {
                    assert(target_remote_name@ =~= empty@);
                }
            }
            let mut r = target_owner.clone();
            r.append(":");
            r.append(parent.as_str());
            r
        }
    }
}

/// The facts the remote host reports about an existing pull request.
pub struct PrFacts {
    /// The pull request's recorded base ref.
    pub base_ref: String,
    /// The commit its head currently points at.
    pub head_sha: String,
}

/// Mathematical model of [`PrFacts`].
#[verifier::ext_equal]
pub ghost struct PrFactsView {
    pub base_ref: Seq<char>,
    pub head_sha: Seq<char>,
}

impl View for PrFacts {
    type V = PrFactsView;

    open spec fn view(&self) -> PrFactsView {
        PrFactsView { base_ref: self.base_ref@, head_sha: self.head_sha@ }
    }
}

/// The planned actions for one branch of the stack.
pub enum BranchPlan {
    /// No pull request yet: push the branch, collect title, description and
    /// draft status, create the pull request with the given base, then
    /// record the submission in the tree.
    Create {
        /// The base ref for the new pull request.
        base: String,
    },
    /// A pull request exists: first update its recorded base if it went
    /// stale, then push — unless the remote head already equals the local
    /// tip, in which case nothing is pushed at all.
    Update {
        /// The base to set before any push decision, when the recorded base
        /// no longer names the local parent.
        new_base: Option<String>,
        /// Whether the branch must be pushed to bring the remote head up to
        /// date.
        push: bool,
    },
}

/// Mathematical model of [`BranchPlan`].
#[verifier::ext_equal]
pub ghost enum PlanView {
    Create { base: Seq<char> },
    Update { new_base: Option<Seq<char>>, push: bool },
}

impl View for BranchPlan {
    type V = PlanView;

    open spec fn view(&self) -> PlanView {
        match self {
            BranchPlan::Create { base } => PlanView::Create { base: base@ },
            BranchPlan::Update { new_base, push } => PlanView::Update {
                new_base: match new_base {
                    Some(b) => Some(b@),
                    None => None,
                },
                push: *push,
            },
        }
    }
}

/// The plan for one branch, freshly evaluated from observable facts: the
/// branch's publication state, what the remote host reports about its pull
/// request, the local parent name, the base ref a new or moved pull request
/// would get, and the local tip commit.
pub open spec fn plan_spec(
    remote: Option<RemoteMetaView>,
    facts: Option<PrFactsView>,
    parent: Seq<char>,
    base_parent: Seq<char>,
    local_tip: Seq<char>,
) -> PlanView {
    match remote {
        None => PlanView::Create { base: base_parent },
        Some(_) => PlanView::Update {
            new_base: if facts->0.base_ref != parent {
                Some(base_parent)
            } else {
                None
            },
            push: facts->0.head_sha != local_tip,
        },
    }
}

/// Whether a plan pushes the branch to the remote.
pub open spec fn plan_pushes(p: PlanView) -> bool {
    p is Create || (p is Update && p->push)
}

/// The model of optional pull-request facts.
pub open spec fn facts_view(o: Option<PrFacts>) -> Option<PrFactsView> {
    match o {
        Some(f) => Some(f@),
        None => None,
    }
}

impl SubmitCmd {
    /// Plans one branch of the stack. The caller hands in the pull-request
    /// facts it fetched for a published branch (and nothing for an
    /// unpublished one), the parent branch name, the base ref computed for
    /// the target remote, and the branch's local tip commit.
    pub fn plan_branch(
        branch: &TrackedBranch,
        remote_pr: &Option<PrFacts>,
        parent: &String,
        base_parent: String,
        local_tip: &String,
    ) -> (r: BranchPlan)
        requires
            (branch.remote is Some) == (remote_pr is Some),
        ensures
            r@ == plan_spec(
                branch@.remote,
                facts_view(*remote_pr),
                parent@,
                base_parent@,
                local_tip@,
            ),
    {
        match remote_pr {
            None => BranchPlan::Create { base: base_parent },
            Some(facts) => {
                let new_base: Option<String> = if !(facts.base_ref == *parent) {
                    Some(base_parent)
                } else {
                    None
                };
                let push = !(facts.head_sha == *local_tip);
                BranchPlan::Update { new_base, push }
            },
        }
    }
}

/// Everything observed about one branch when a stack is re-submitted.
#[verifier::ext_equal]
pub ghost struct BranchObs {
    /// The branch's recorded publication state.
    pub remote: Option<RemoteMetaView>,
    /// What the remote host reports about its pull request.
    pub facts: Option<PrFactsView>,
    /// The local parent branch name.
    pub parent: Seq<char>,
    /// The base ref computed for the target remote.
    pub base_parent: Seq<char>,
    /// The branch's local tip commit.
    pub local_tip: Seq<char>,
}

/// The plans of a whole stack, one branch at a time.
pub open spec fn stack_plans(obs: Seq<BranchObs>) -> Seq<PlanView> {
    obs.map_values(
        |o: BranchObs| plan_spec(o.remote, o.facts, o.parent, o.base_parent, o.local_tip),
    )
}

/// Law: re-running submission on a stack where every branch is already
/// published and every pull request's head equals the local tip plans no
/// push and no pull-request creation for any branch — re-submission is
/// idempotent, whatever the recorded bases do.
pub proof fn lemma_submission_idempotent(obs: Seq<BranchObs>)
    requires
        forall|k: int|
            0 <= k < obs.len() ==> (#[trigger] obs[k]).remote is Some && obs[k].facts is Some
                && obs[k].facts->0.head_sha == obs[k].local_tip,
    ensures
        forall|k: int|
            0 <= k < obs.len() ==> !plan_pushes(#[trigger] stack_plans(obs)[k]) && !(stack_plans(
                obs,
            )[k] is Create),
{
    assert forall|k: int|
        0 <= k < obs.len() implies !plan_pushes(#[trigger] stack_plans(obs)[k]) && !(stack_plans(
        obs,
    )[k] is Create) by {
        assert(stack_plans(obs)[k] == plan_spec(
            obs[k].remote,
            obs[k].facts,
            obs[k].parent,
            obs[k].base_parent,
            obs[k].local_tip,
        ));
    }
}

/// Law: whenever any child of `branch` carries publication state, the
/// target remote is that of some tracked child with publication state —
/// never the default fallback picked blindly.
pub proof fn lemma_target_remote_inherits(v: TreeView, branch: Seq<char>)
    requires
        v.wf(),
        has_name(v.nodes, branch),
        exists|k: int|
            0 <= k < node_of(v, branch).children.len() && has_name(
                v.nodes,
                #[trigger] node_of(v, branch).children[k],
            ) && node_of(v, node_of(v, branch).children[k]).remote is Some,
    ensures
        exists|k: int|
            0 <= k < node_of(v, branch).children.len() && has_name(
                v.nodes,
                #[trigger] node_of(v, branch).children[k],
            ) && node_of(v, node_of(v, branch).children[k]).remote is Some && target_remote_spec(
                v,
                branch,
            ) == node_of(v, node_of(v, branch).children[k]).remote->0.remote_name,
{
    let kids = node_of(v, branch).children;
    let k0 = choose|k: int|
        0 <= k < kids.len() && has_name(v.nodes, kids[k]) && node_of(v, kids[k]).remote is Some;
    lemma_first_child_remote(v, kids, k0);
    let kw = choose|k: int|
        0 <= k < kids.len() && has_name(v.nodes, kids[k]) && node_of(v, kids[k]).remote is Some
            && first_child_remote(v, kids) == node_of(v, kids[k]).remote;
    assert(target_remote_spec(v, branch) == node_of(v, kids[kw]).remote->0.remote_name);
}

/// When some entry of `kids` is tracked and published, the first published
/// child's state is what `first_child_remote` returns.
proof fn lemma_first_child_remote(v: TreeView, kids: Seq<Seq<char>>, k0: int)
    requires
        0 <= k0 < kids.len(),
        has_name(v.nodes, kids[k0]),
        node_of(v, kids[k0]).remote is Some,
    ensures
        exists|k: int|
            0 <= k < kids.len() && has_name(v.nodes, #[trigger] kids[k]) && node_of(
                v,
                kids[k],
            ).remote is Some && first_child_remote(v, kids) == node_of(v, kids[k]).remote,
    decreases kids.len(),
{
    if has_name(v.nodes, kids[0]) && node_of(v, kids[0]).remote is Some {
        assert(first_child_remote(v, kids) == node_of(v, kids[0]).remote);
    } else {
        assert(k0 >= 1);
        assert(kids.drop_first()[k0 - 1] == kids[k0]);
        lemma_first_child_remote(v, kids.drop_first(), k0 - 1);
        let kw = choose|k: int|
            0 <= k < kids.drop_first().len() && has_name(v.nodes, #[trigger] kids.drop_first()[k])
                && node_of(v, kids.drop_first()[k]).remote is Some && first_child_remote(
                v,
                kids.drop_first(),
            ) == node_of(v, kids.drop_first()[k]).remote;
        assert(kids.drop_first()[kw] == kids[kw + 1]);
        assert(first_child_remote(v, kids) == node_of(v, kids[kw + 1]).remote);
    }
}

} // verus!
