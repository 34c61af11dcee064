//! The running command's context: the configuration and the branch tree.

use vstd::prelude::*;

use crate::config::StConfig;
use crate::errors::StError;
use crate::errors::StResult;
use crate::tree::StTree;

verus! {

/// Everything a command works on: the global settings and the tree store.
/// Reading refs, pushing and talking to the remote host happen outside the
/// library; their observations are handed in as plain values.
pub struct StContext {
    /// The global settings.
    pub cfg: StConfig,
    /// The tree of tracked branches.
    pub tree: StTree,
}

impl StContext {
    /// Whether the held tree satisfies the tree invariants.
    pub open spec fn wf(self) -> bool {
        self.tree.wf()
    }

    /// A fresh context for a repository just set up: the tree holds only
    /// the trunk.
    pub fn fresh(cfg: StConfig, remote_name: String, trunk_branch: String) -> (r: StContext)
        ensures
            r.wf(),
            r.cfg == cfg,
            r.tree@.trunk == trunk_branch@,
            r.tree@.remote == remote_name@,
            r.tree@.nodes.len() == 1,
    {
        StContext { cfg, tree: StTree::fresh(remote_name, trunk_branch) }
    }

    /// The pre-flight gate: fails fast — before any push or network side
    /// effect — when the working tree is dirty, or when some non-trunk
    /// branch of the stack is not based on its parent's tip and must be
    /// restacked first. `based_on_parent[k]` reports, for each stack entry,
    /// whether the branch's merge base with its parent equals the parent's
    /// tip; entry 0 (the trunk) is ignored.
    pub fn check_cleanliness(
        &self,
        stack: &Vec<String>,
        working_tree_clean: bool,
        based_on_parent: &Vec<bool>,
    ) -> (r: StResult<()>)
        requires
            based_on_parent@.len() == stack@.len(),
        ensures
            (r is Ok) == (working_tree_clean && (forall|k: int|
                1 <= k < stack@.len() ==> based_on_parent@[k])),
            !working_tree_clean ==> (r is Err && r->Err_0 is WorkingTreeDirty),
            r is Err && working_tree_clean ==> (r->Err_0 matches StError::NeedsRestack(n) && {
                exists|k: int|
                    1 <= k < stack@.len() && !(#[trigger] based_on_parent@[k]) && n@
                        == stack@[k]@
            }),
    {
        if !working_tree_clean {
            return Err(StError::WorkingTreeDirty);
        }
        let mut k: usize = 1;
        while k < stack.len()
            invariant
                working_tree_clean,
                1 <= k <= stack@.len() || stack@.len() == 0,
                based_on_parent@.len() == stack@.len(),
                forall|j: int| 1 <= j < k ==> based_on_parent@[j],
            decreases stack@.len() - k,
        {
            if !based_on_parent[k] {
                return Err(StError::NeedsRestack(stack[k].clone()));
            }
            k += 1;
        }
        Ok(())
    }

    /// Derives the stack of `current_branch`; see [`StTree::discover_stack`].
    pub fn discover_stack(&self, current_branch: &String) -> (r: StResult<Vec<String>>)
        requires
            self.wf(),
        ensures
            match r {
                Ok(stack) => crate::tree::has_name(self.tree@.nodes, current_branch@)
                    && crate::stack::is_stack(self.tree@, stack.deep_view(), current_branch@),
                Err(e) => !crate::tree::has_name(self.tree@.nodes, current_branch@) && (e matches
                StError::BranchNotTracked(n) && n@ == current_branch@),
            },
    {
        self.tree.discover_stack(current_branch)
    }

    /// Reconciles closed pull requests; see [`StTree::delete_closed_branches`].
    pub fn delete_closed_branches(&mut self, checked: &Vec<(String, bool)>) -> (count: usize)
        requires
            old(self).wf(),
        ensures
            final(self).wf(),
            final(self).cfg == old(self).cfg,
            count <= checked@.len(),
            final(self).tree@ == crate::delete::delete_closed_spec(
                old(self).tree@,
                crate::delete::checked_view(checked@),
            ).0,
            count as nat == crate::delete::delete_closed_spec(
                old(self).tree@,
                crate::delete::checked_view(checked@),
            ).1,
    {
        self.tree.delete_closed_branches(checked)
    }

    /// Clears every branch's publication state; see
    /// [`StTree::reset_tracked_branches`].
    pub fn reset_tracked_branches(&mut self)
        requires
            old(self).wf(),
        ensures
            final(self).wf(),
            final(self).cfg == old(self).cfg,
            final(self).tree@ == (crate::tree::TreeView {
                nodes: crate::tree::cleared_nodes(old(self).tree@.nodes),
                ..old(self).tree@
            }),
    {
        self.tree.reset_tracked_branches()
    }
}

} // verus!
