//! The `set` subcommand: edits the default remote or the default assignee.

use vstd::prelude::*;

use crate::ctx::StContext;
use crate::errors::StResult;
use crate::tree::TreeView;
use crate::tree::cleared_nodes;

verus! {

/// Arguments for `set`.
pub struct SetCmd {
    /// What to set.
    pub command: SetCommands,
}

/// The things `set` can edit.
pub enum SetCommands {
    /// Set the remote name.
    Remote(RemoteArgs),
    /// Set the default assignee.
    Assignee(AssigneeArgs),
}

/// Arguments for setting the remote name.
pub struct RemoteArgs {
    /// The name of the remote to set; when absent, the caller must prompt
    /// the user for one and apply it through [`SetCmd::apply_remote`].
    pub name: Option<String>,
}

/// Arguments for setting the default assignee.
pub struct AssigneeArgs {
    /// The username of the default assignee.
    pub username: String,
}

/// What `run` decided: either the edit is done, or an interactive prompt
/// for a remote name is needed first.
pub enum SetOutcome {
    /// The edit was applied.
    Done,
    /// No remote name was given: prompt the user, then call
    /// [`SetCmd::apply_remote`] with the answer.
    RemotePromptNeeded,
}

/// The context after the remote name is set to `name`: unchanged when the
/// name is already the default; otherwise the default changes and every
/// branch's publication state is cleared.
pub open spec fn remote_set_view(v: TreeView, name: Seq<char>) -> TreeView {
    if name == v.remote {
        v
    } else {
        TreeView { nodes: cleared_nodes(v.nodes), remote: name, ..v }
    }
}

impl SetCmd {
    /// Applies a resolved remote name to the context.
    pub fn apply_remote(ctx: &mut StContext, name: String)
        requires
            old(ctx).wf(),
        ensures
            final(ctx).wf(),
            final(ctx).cfg == old(ctx).cfg,
            final(ctx).tree@ == remote_set_view(old(ctx).tree@, name@),
    {
        ctx.tree.set_remote_name(name);
    }

    /// Runs the `set` subcommand. Setting the assignee or a given remote
    /// name is applied directly; when no remote name was given, the caller
    /// is asked to prompt for one.
    pub fn run(self, ctx: &mut StContext) -> (r: StResult<SetOutcome>)
        requires
            old(ctx).wf(),
        ensures
            final(ctx).wf(),
            r is Ok,
            match self.command {
                SetCommands::Remote(args) => match args.name {
                    Some(name) => r->Ok_0 is Done && final(ctx).cfg == old(ctx).cfg
                        && final(ctx).tree@ == remote_set_view(old(ctx).tree@, name@),
                    None => r->Ok_0 is RemotePromptNeeded && *final(ctx) == *old(ctx),
                },
                SetCommands::Assignee(args) => r->Ok_0 is Done && final(ctx).tree == old(ctx).tree
                    && final(ctx).cfg.github_token == old(ctx).cfg.github_token
                    && (final(ctx).cfg.default_assignee matches Some(u) && u@ == args.username@),
            },
    {
        match self.command {
            SetCommands::Remote(args) => {
                match args.name {
                    Some(name) => {
                        Self::apply_remote(ctx, name);
                        Ok(SetOutcome::Done)
                    },
                    None => Ok(SetOutcome::RemotePromptNeeded),
                }
            },
            SetCommands::Assignee(args) => {
                ctx.cfg.default_assignee = Some(args.username);
                Ok(SetOutcome::Done)
            },
        }
    }
}

} // verus!
