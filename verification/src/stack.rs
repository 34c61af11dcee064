//! The stack resolver: derives the ordered chain from a branch up to the
//! trunk.

use vstd::prelude::*;

use crate::errors::StError;
use crate::errors::StResult;
use crate::tree::BranchView;
use crate::tree::StTree;
use crate::tree::TreeView;
use crate::tree::has_name;
use crate::tree::has_name_before;
use crate::tree::idx_of;
use crate::tree::lemma_idx_of_unique;
use crate::tree::node_of;

verus! {

/// What it means for `names` to be the stack of `current` in `v`: it starts
/// at the trunk, ends at `current`, every entry is tracked, and each
/// consecutive pair is a parent/child edge.
pub open spec fn is_stack(v: TreeView, names: Seq<Seq<char>>, current: Seq<char>) -> bool {
    &&& names.len() >= 1
    &&& names[0] == v.trunk
    &&& names[names.len() - 1] == current
    &&& forall|k: int| 0 <= k < names.len() ==> has_name(v.nodes, #[trigger] names[k])
    &&& forall|k: int|
        1 <= k < names.len() ==> node_of(v, #[trigger] names[k]).parent == Some(names[k - 1])
}

/// The number of parent links between the node at index `i` and the trunk.
pub open spec fn depth_at(v: TreeView, i: int) -> nat
    decreases i
        when v.wf() && 0 <= i < v.nodes.len()
        via depth_at_decreases
{
    match v.nodes[i].parent {
        None => 0,
        Some(p) => depth_at(v, idx_of(v.nodes, p)) + 1,
    }
}

#[via_fn]
proof fn depth_at_decreases(v: TreeView, i: int) {
    match v.nodes[i].parent {
        None => {},
        Some(p) => {
            assert(i >= 1) by {
                if i == 0 {
                    assert(v.nodes[0].parent is None);
                }
            }
            assert(has_name_before(v.nodes, p, i));
            let j = choose|j: int| 0 <= j < i && v.nodes[j].name == p;
            lemma_idx_of_unique(v.nodes, p, j);
        },
    }
}

/// The number of parent links between the node named `n` and the trunk.
pub open spec fn depth_of(v: TreeView, n: Seq<char>) -> nat {
    depth_at(v, idx_of(v.nodes, n))
}

impl StTree {
    /// Derives the ordered stack from `current_branch` up to the trunk:
    /// index 0 is the trunk, the last element is `current_branch`, and each
    /// entry stacks on the one before it. Fails with `BranchNotTracked`
    /// when `current_branch` is not in the tree.
    #[verifier::rlimit(60)]
    pub fn discover_stack(&self, current_branch: &String) -> (r: StResult<Vec<String>>)
        requires
            self.wf(),
        ensures
            match r {
                Ok(stack) => has_name(self@.nodes, current_branch@) && is_stack(
                    self@,
                    stack.deep_view(),
                    current_branch@,
                ),
                Err(e) => !has_name(self@.nodes, current_branch@) && (e matches
                StError::BranchNotTracked(n) && n@ == current_branch@),
            },
    {
        let mut idx: usize = match self.find_index(current_branch) {
            Some(i) => i,
            None => {
                return Err(StError::BranchNotTracked(current_branch.clone()));
            },
        };
        let mut chain: Vec<String> = Vec::new();
        chain.push(self.branches[idx].name.clone());
        let ghost mut g: Seq<Seq<char>> = seq![current_branch@];
        proof {
            assert(chain.deep_view() =~= g);
        }
        while self.branches[idx].parent.is_some()
            invariant
                self.wf(),
                idx < self@.nodes.len(),
                chain.deep_view() == g,
                g.len() >= 1,
                g[0] == self@.nodes[idx as int].name,
                g[g.len() - 1] == current_branch@,
                forall|k: int| 0 <= k < g.len() ==> has_name(self@.nodes, #[trigger] g[k]),
                forall|k: int|
                    1 <= k < g.len() ==> node_of(self@, #[trigger] g[k]).parent == Some(g[k - 1]),
            decreases idx,
        {
            let ghost pre = g;
            let parent: &String = match &self.branches[idx].parent {
                Some(p) => p,
                None => {
                    proof {
                        assert(false);
                    }
                    return Err(StError::BranchNotTracked(current_branch.clone()));
                },
            };
            let pidx = match self.find_index(parent) {
                Some(j) => j,
                None => {
                    proof {
                        assert(self@.nodes[idx as int].parent is Some);
                        assert(idx >= 1) by {
                            if idx == 0 {
                                assert(self@.nodes[0].parent is None);
                            }
                        }
                        assert(has_name_before(self@.nodes, parent@, idx as int));
                        let j = choose|j: int|
                            0 <= j < idx as int && self@.nodes[j].name == parent@;
                        assert(has_name(self@.nodes, parent@));
                        assert(false);
                    }
                    return Err(StError::BranchNotTracked(current_branch.clone()));
                },
            };
            proof {
                assert(idx >= 1) by {
                    if idx == 0 {
                        assert(self@.nodes[0].parent is None);
                    }
                }
                assert(has_name_before(self@.nodes, parent@, idx as int));
                let j = choose|j: int| 0 <= j < idx as int && self@.nodes[j].name == parent@;
                lemma_idx_of_unique(self@.nodes, parent@, j);
                lemma_idx_of_unique(self@.nodes, parent@, pidx as int);
                assert(pidx < idx);
            }
            chain.insert(0, parent.clone());
            proof {
                g = seq![parent@] + pre;
                assert(chain.deep_view() =~= g);
                assert(node_of(self@, pre[0]).parent == Some(parent@)) by {
                    lemma_idx_of_unique(self@.nodes, self@.nodes[idx as int].name, idx as int);
                }
                assert forall|k: int| 1 <= k < g.len() implies node_of(self@, #[trigger] g[k]).parent
                    == Some(g[k - 1]) by {
                    if k == 1 {
                        assert(g[1] == pre[0]);
                    } else {
                        assert(g[k] == pre[k - 1]);
                        assert(g[k - 1] == pre[k - 2]);
                    }
                }
                assert(g[0] == self@.nodes[pidx as int].name);
                assert(g[g.len() - 1] == pre[pre.len() - 1]);
            }
            idx = pidx;
        }
        proof {
            assert(self@.nodes[idx as int].parent is None);
            assert(idx == 0) by {
                if idx >= 1 {
                    assert(self@.nodes[idx as int].parent is Some);
                }
            }
            assert(g[0] == self@.trunk);
        }
        Ok(chain)
    }
}

/// Law: a discovered stack starts at the trunk, ends at the requested
/// branch, every consecutive pair is a parent/child edge of the tree (in
/// both directions), the distance to the trunk along it is exactly the
/// position in the stack — so it strictly decreases walking from the branch
/// back towards the trunk — and no branch name repeats.
pub proof fn lemma_stack_shape(v: TreeView, names: Seq<Seq<char>>, current: Seq<char>)
    requires
        v.wf(),
        is_stack(v, names, current),
    ensures
        names[0] == v.trunk,
        names[names.len() - 1] == current,
        forall|k: int|
            1 <= k < names.len() ==> node_of(v, #[trigger] names[k]).parent == Some(names[k - 1])
                && node_of(v, names[k - 1]).children.contains(names[k]),
        forall|k: int| 0 <= k < names.len() ==> depth_of(v, #[trigger] names[k]) == k,
        forall|k1: int, k2: int|
            0 <= k1 < k2 < names.len() ==> #[trigger] names[k1] != #[trigger] names[k2],
{
    assert forall|k: int| 0 <= k < names.len() implies depth_of(v, #[trigger] names[k]) == k by {
        lemma_stack_depth(v, names, current, k);
    }
    assert forall|k1: int, k2: int|
        0 <= k1 < k2 < names.len() implies #[trigger] names[k1] != #[trigger] names[k2] by {
        if names[k1] == names[k2] {
            assert(depth_of(v, names[k1]) == k1);
            assert(depth_of(v, names[k2]) == k2);
        }
    }
    assert forall|k: int| 1 <= k < names.len() implies node_of(v, #[trigger] names[k]).parent
        == Some(names[k - 1]) && node_of(v, names[k - 1]).children.contains(names[k]) by {
        let j = idx_of(v.nodes, names[k]);
        assert(has_name(v.nodes, names[k]));
        assert(0 <= j < v.nodes.len() && v.nodes[j].name == names[k]);
        let i = idx_of(v.nodes, names[k - 1]);
        assert(has_name(v.nodes, names[k - 1]));
        assert(0 <= i < v.nodes.len() && v.nodes[i].name == names[k - 1]);
        assert(j >= 1) by {
            if j == 0 {
                assert(v.nodes[0].parent is None);
            }
        }
        assert(v.nodes[j].parent == Some(v.nodes[i].name));
    }
}

/// The distance to the trunk of the `k`-th entry of a stack is `k`.
proof fn lemma_stack_depth(v: TreeView, names: Seq<Seq<char>>, current: Seq<char>, k: int)
    requires
        v.wf(),
        is_stack(v, names, current),
        0 <= k < names.len(),
    ensures
        depth_of(v, names[k]) == k,
    decreases k,
{
    if k == 0 {
        lemma_idx_of_unique(v.nodes, v.trunk, 0);
    } else {
        lemma_stack_depth(v, names, current, k - 1);
        let j = idx_of(v.nodes, names[k]);
        assert(has_name(v.nodes, names[k]));
        assert(0 <= j < v.nodes.len() && v.nodes[j].name == names[k]);
        assert(v.nodes[j].parent == Some(names[k - 1]));
        assert(depth_at(v, j) == depth_at(v, idx_of(v.nodes, names[k - 1])) + 1);
    }
}

} // verus!
