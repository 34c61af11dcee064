//! Proof that deleting a node and re-linking its children preserves the
//! tree invariants.

use vstd::prelude::*;

use crate::tree::BranchView;
use crate::tree::StTree;
use crate::tree::TrackedBranch;
use crate::tree::TreeView;
use crate::tree::clone_branch;
use crate::tree::clone_names;
use crate::tree::clone_opt_name;
use crate::tree::clone_remote;
use crate::tree::find_name_pos;
use crate::tree::nodes_view;
use crate::tree::child_edge;
use crate::tree::child_pos;
use crate::tree::delete_node;
use crate::tree::has_name;
use crate::tree::has_name_before;
use crate::tree::idx_of;
use crate::tree::lemma_delete_node_index;
use crate::tree::lemma_idx_of_unique;
use crate::tree::lemma_relink_cases;
use crate::tree::node_of;
use crate::tree::relink;
use crate::tree::remove_child;
use crate::tree::lemma_remove_child;
use crate::tree::unremoved_index;

verus! {

/// The tree around the deleted node: same trunk, same default remote.
pub open spec fn deleted_view(v: TreeView, d: int) -> TreeView {
    TreeView { nodes: delete_node(v.nodes, d), ..v }
}

/// Deleting keeps every other node's name and remote metadata, keeps the
/// names unique, and drops the deleted name.
proof fn lemma_delete_names(v: TreeView, d: int)
    requires
        v.wf(),
        1 <= d < v.nodes.len(),
    ensures
        ({
            let m = delete_node(v.nodes, d);
            &&& m.len() == v.nodes.len() - 1
            &&& forall|t: int|
                0 <= t < m.len() ==> (#[trigger] m[t]).name == v.nodes[unremoved_index(d, t)].name
                    && m[t].remote == v.nodes[unremoved_index(d, t)].remote
            &&& forall|t1: int, t2: int| 0 <= t1 < t2 < m.len() ==> m[t1].name != m[t2].name
            &&& !has_name(m, v.nodes[d].name)
        }),
{
    let m = delete_node(v.nodes, d);
    lemma_delete_node_index(v.nodes, d);
    assert forall|t: int|
        0 <= t < m.len() implies (#[trigger] m[t]).name == v.nodes[unremoved_index(d, t)].name
        && m[t].remote == v.nodes[unremoved_index(d, t)].remote by {
        lemma_relink_cases(v, d, unremoved_index(d, t));
    }
    assert forall|t1: int, t2: int| 0 <= t1 < t2 < m.len() implies m[t1].name != m[t2].name by {
        assert(v.nodes[unremoved_index(d, t1)].name != v.nodes[unremoved_index(d, t2)].name);
    }
    assert forall|t: int| 0 <= t < m.len() implies (#[trigger] m[t]).name != v.nodes[d].name by {
        let u = unremoved_index(d, t);
        if u < d {
            assert(v.nodes[u].name != v.nodes[d].name);
        } else {
            assert(v.nodes[d].name != v.nodes[u].name);
        }
    }
}

/// The trunk clause survives deletion of a non-trunk node.
proof fn lemma_delete_trunk(v: TreeView, d: int)
    requires
        v.wf(),
        1 <= d < v.nodes.len(),
    ensures
        deleted_view(v, d).trunk_is_root(),
{
    lemma_delete_node_index(v.nodes, d);
    lemma_relink_cases(v, d, 0);
    let m = delete_node(v.nodes, d);
    assert(m[0] == relink(v.nodes[0], v.nodes[d]));
}

/// Parent links still resolve to earlier nodes after deletion.
proof fn lemma_delete_parents(v: TreeView, d: int)
    requires
        v.wf(),
        1 <= d < v.nodes.len(),
    ensures
        deleted_view(v, d).parents_resolve(),
{
    lemma_delete_node_index(v.nodes, d);
    lemma_delete_names(v, d);
    let m = delete_node(v.nodes, d);
    let rm = v.nodes[d];
    assert forall|t: int| 1 <= t < m.len() implies (#[trigger] m[t]).parent is Some
        && has_name_before(m, m[t].parent->0, t) by {
        let r = unremoved_index(d, t);
        lemma_relink_cases(v, d, r);
        let b = v.nodes[r];
        if b.parent == Some(rm.name) {
            // re-linked child: its new parent is the removed node's parent,
            // which sits before the removed node, hence before the child.
            let p = rm.parent->0;
            assert(has_name_before(v.nodes, p, d));
            let j = choose|j: int| 0 <= j < d && v.nodes[j].name == p;
            assert(m[j].name == v.nodes[unremoved_index(d, j)].name);
            assert(unremoved_index(d, j) == j);
            assert(r > d);
            assert(j < t);
            assert(has_name_before(m, p, t));
        } else {
            assert(m[t].parent == b.parent);
            assert(has_name_before(v.nodes, b.parent->0, r));
            let j = choose|j: int| 0 <= j < r && v.nodes[j].name == b.parent->0;
            assert(j != d) by {
                if j == d {
                    assert(b.parent == Some(rm.name));
                }
            }
            let j2: int = if j < d {
                j
            } else {
                j - 1
            };
            assert(unremoved_index(d, j2) == j);
            assert(m[j2].name == v.nodes[j].name);
            assert(j2 < t);
            assert(has_name_before(m, b.parent->0, t));
        }
    }
}

/// Helper: the index in the remaining nodes of an old index other than the
/// deleted one.
spec fn new_index(d: int, j: int) -> int {
    if j < d {
        j
    } else {
        j - 1
    }
}

/// Every entry of a children list still names a node whose parent is the
/// listing node.
proof fn lemma_delete_children_sound(v: TreeView, d: int)
    requires
        v.wf(),
        1 <= d < v.nodes.len(),
    ensures
        deleted_view(v, d).children_sound(),
{
    lemma_delete_node_index(v.nodes, d);
    lemma_delete_names(v, d);
    let m = delete_node(v.nodes, d);
    let rm = v.nodes[d];
    assert forall|t: int, k: int|
        0 <= t < m.len() && 0 <= k < (#[trigger] m[t]).children.len() implies child_edge(
        m,
        t,
        #[trigger] m[t].children[k],
    ) by {
        let r = unremoved_index(d, t);
        lemma_relink_cases(v, d, r);
        let b = v.nodes[r];
        let c = m[t].children[k];
        // Identify the old node that the entry names, and show it is not
        // the removed one.
        if b.name == rm.parent->0 {
            // grandparent: entries come from its pruned list or from the
            // removed node's own children.
            lemma_remove_child(b.children, rm.name);
            let rc = remove_child(b.children, rm.name);
            if k < rc.len() {
                assert(rc[k] == b.children[unremoved_index(child_pos(b.children, rm.name), k)]);
                let k0 = unremoved_index(child_pos(b.children, rm.name), k);
                assert(child_edge(v.nodes, r, v.nodes[r].children[k0]));
                let j = choose|j: int|
                    1 <= j < v.nodes.len() && v.nodes[j].name == v.nodes[r].children[k0]
                        && v.nodes[j].parent == Some(v.nodes[r].name);
                assert(v.nodes[j].name == c);
                assert(j != d) by {
                    if j == d {
                        assert(c == rm.name);
                        assert(rc[k] != rm.name);
                    }
                }
                lemma_relink_cases(v, d, j);
                assert(v.nodes[j].parent != Some(rm.name)) by {
                    if v.nodes[j].parent == Some(rm.name) {
                        assert(v.nodes[r].name == rm.name);
                        if r < d {
                            assert(v.nodes[r].name != v.nodes[d].name);
                        } else {
                            assert(v.nodes[d].name != v.nodes[r].name);
                        }
                    }
                }
                let j2 = new_index(d, j);
                assert(unremoved_index(d, j2) == j);
                assert(1 <= j2 < m.len());
                assert(m[j2].name == c);
                assert(m[j2].parent == Some(v.nodes[r].name));
                assert(m[t].name == v.nodes[r].name);
                assert(child_edge(m, t, c));
            } else {
                // adopted child of the removed node
                let k0 = k - rc.len();
                assert(c == rm.children[k0]);
                assert(child_edge(v.nodes, d, v.nodes[d].children[k0]));
                let j = choose|j: int|
                    1 <= j < v.nodes.len() && v.nodes[j].name == v.nodes[d].children[k0]
                        && v.nodes[j].parent == Some(v.nodes[d].name);
                assert(j != d) by {
                    if j == d {
                        assert(v.nodes[d].parent == Some(rm.name));
                        assert(rm.parent->0 != rm.name) by {
                            let jj = choose|jj: int| 0 <= jj < d && v.nodes[jj].name == rm.parent->0;
                            if v.nodes[jj].name == v.nodes[d].name {
                                assert(v.nodes[jj].name != v.nodes[d].name);
                            }
                        }
                        assert(has_name_before(v.nodes, rm.parent->0, d));
                        let jj = choose|jj: int| 0 <= jj < d && v.nodes[jj].name == rm.parent->0;
                        assert(v.nodes[jj].name != v.nodes[d].name);
                    }
                }
                lemma_relink_cases(v, d, j);
                let j2 = new_index(d, j);
                assert(unremoved_index(d, j2) == j);
                assert(1 <= j2 < m.len());
                assert(m[j2].name == c);
                // the adopted child is re-linked to the grandparent
                assert(m[j2].parent == rm.parent);
                assert(m[t].name == b.name);
                assert(rm.parent == Some(b.name));
                assert(child_edge(m, t, c));
            }
        } else {
            // children list unchanged
            assert(m[t].children == b.children);
            assert(child_edge(v.nodes, r, v.nodes[r].children[k]));
            let j = choose|j: int|
                1 <= j < v.nodes.len() && v.nodes[j].name == v.nodes[r].children[k]
                    && v.nodes[j].parent == Some(v.nodes[r].name);
            assert(j != d) by {
                if j == d {
                    // the removed node would be a listed child of a node
                    // that is not its parent's owner
                    assert(v.nodes[d].parent == Some(v.nodes[r].name));
                    assert(b.name == rm.parent->0);
                }
            }
            lemma_relink_cases(v, d, j);
            assert(v.nodes[j].parent != Some(rm.name)) by {
                if v.nodes[j].parent == Some(rm.name) {
                    assert(v.nodes[r].name == rm.name);
                    if r < d {
                        assert(v.nodes[r].name != v.nodes[d].name);
                    } else {
                        assert(v.nodes[d].name != v.nodes[r].name);
                    }
                }
            }
            let j2 = new_index(d, j);
            assert(unremoved_index(d, j2) == j);
            assert(1 <= j2 < m.len());
            assert(m[j2].name == c);
            assert(m[j2].parent == Some(v.nodes[r].name));
            assert(m[t].name == v.nodes[r].name);
            assert(child_edge(m, t, c));
        }
    }
}

/// Every parent edge is still mirrored in the parent's children list.
proof fn lemma_delete_children_complete(v: TreeView, d: int)
    requires
        v.wf(),
        1 <= d < v.nodes.len(),
    ensures
        deleted_view(v, d).children_complete(),
{
    lemma_delete_node_index(v.nodes, d);
    lemma_delete_names(v, d);
    let m = delete_node(v.nodes, d);
    let rm = v.nodes[d];
    assert forall|ti: int, tj: int|
        0 <= ti < m.len() && 1 <= tj < m.len() && (#[trigger] m[tj]).parent == Some(
            (#[trigger] m[ti]).name,
        ) implies m[ti].children.contains(m[tj].name) by {
        let ri = unremoved_index(d, ti);
        let rj = unremoved_index(d, tj);
        lemma_relink_cases(v, d, ri);
        lemma_relink_cases(v, d, rj);
        let bi = v.nodes[ri];
        let bj = v.nodes[rj];
        if bj.parent == Some(rm.name) {
            // a re-linked child: its new parent is the removed node's
            // former parent, who adopted all the removed node's children.
            assert(m[tj].parent == rm.parent);
            assert(bi.name == rm.parent->0);
            lemma_remove_child(bi.children, rm.name);
            let rc = remove_child(bi.children, rm.name);
            assert(v.nodes[d].parent == Some(v.nodes[ri].name));
            assert(rm.children.contains(bj.name));
            let k = choose|k: int| 0 <= k < rm.children.len() && rm.children[k] == bj.name;
            assert(m[ti].children[rc.len() + k] == bj.name);
            assert(m[ti].children.contains(m[tj].name));
        } else {
            assert(m[tj].parent == bj.parent);
            assert(bj.parent == Some(bi.name));
            assert(rj >= 1);
            assert(v.nodes[rj].parent == Some(v.nodes[ri].name));
            assert(bi.children.contains(bj.name));
            if bi.name == rm.parent->0 {
                // the grandparent's list lost only the removed node's entry
                lemma_remove_child(bi.children, rm.name);
                let rc = remove_child(bi.children, rm.name);
                assert(bj.name != rm.name) by {
                    if rj < d {
                        assert(v.nodes[rj].name != v.nodes[d].name);
                    } else {
                        assert(v.nodes[d].name != v.nodes[rj].name);
                    }
                }
                let k = choose|k: int| 0 <= k < bi.children.len() && bi.children[k] == bj.name;
                assert(rc.contains(bi.children[k]));
                let k2 = choose|k2: int| 0 <= k2 < rc.len() && rc[k2] == bj.name;
                assert(m[ti].children[k2] == bj.name);
                assert(m[ti].children.contains(m[tj].name));
            } else {
                assert(m[ti].children == bi.children);
                assert(m[ti].children.contains(m[tj].name));
            }
        }
    }
}

/// No children list repeats a name after deletion.
proof fn lemma_delete_children_unique(v: TreeView, d: int)
    requires
        v.wf(),
        1 <= d < v.nodes.len(),
    ensures
        deleted_view(v, d).children_unique(),
{
    lemma_delete_node_index(v.nodes, d);
    let m = delete_node(v.nodes, d);
    let rm = v.nodes[d];
    assert forall|t: int, k1: int, k2: int|
        0 <= t < m.len() && 0 <= k1 < k2 < m[t].children.len() implies #[trigger] m[t].children[k1]
        != #[trigger] m[t].children[k2] by {
        let r = unremoved_index(d, t);
        lemma_relink_cases(v, d, r);
        let b = v.nodes[r];
        if b.name == rm.parent->0 {
            lemma_remove_child(b.children, rm.name);
            let rc = remove_child(b.children, rm.name);
            if k2 < rc.len() {
                assert(rc[k1] != rc[k2]);
            } else if k1 >= rc.len() {
                assert(rm.children[k1 - rc.len()] != rm.children[k2 - rc.len()]);
            } else {
                // one entry from the pruned list, one adopted: a shared name
                // would make one node a child of two distinct parents.
                let c1 = rc[k1];
                let c2 = rm.children[k2 - rc.len()];
                if c1 == c2 {
                    let k0 = unremoved_index(child_pos(b.children, rm.name), k1);
                    assert(b.children[k0] == c1);
                    assert(child_edge(v.nodes, r, v.nodes[r].children[k0]));
                    let j1 = choose|j: int|
                        1 <= j < v.nodes.len() && v.nodes[j].name == v.nodes[r].children[k0]
                            && v.nodes[j].parent == Some(v.nodes[r].name);
                    assert(child_edge(v.nodes, d, v.nodes[d].children[k2 - rc.len()]));
                    let j2 = choose|j: int|
                        1 <= j < v.nodes.len() && v.nodes[j].name == v.nodes[d].children[k2
                            - rc.len()] && v.nodes[j].parent == Some(v.nodes[d].name);
                    assert(j1 == j2) by {
                        if j1 < j2 {
                            assert(v.nodes[j1].name != v.nodes[j2].name);
                        } else if j2 < j1 {
                            assert(v.nodes[j2].name != v.nodes[j1].name);
                        }
                    }
                    assert(v.nodes[r].name == v.nodes[d].name);
                    if r < d {
                        assert(v.nodes[r].name != v.nodes[d].name);
                    } else {
                        assert(v.nodes[d].name != v.nodes[r].name);
                    }
                }
            }
        } else {
            assert(m[t].children == b.children);
            assert(v.nodes[r].children[k1] != v.nodes[r].children[k2]);
        }
    }
}

impl StTree {
    /// Removes the branch named `name` from the tree, re-linking each of
    /// its children to its former parent: the children's `parent` becomes
    /// the removed node's parent, the grandparent's children list swaps the
    /// removed entry for the removed node's children. Returns whether a
    /// branch was removed; the trunk can never be named.
    #[verifier::rlimit(100)]
    #[verifier::spinoff_prover]
    pub fn delete_branch(&mut self, name: &String) -> (r: bool)
        requires
            old(self).wf(),
            name@ != old(self)@.trunk,
        ensures
            final(self).wf(),
            r == has_name(old(self)@.nodes, name@),
            !r ==> final(self)@ == old(self)@,
            r ==> final(self)@ == deleted_view(old(self)@, idx_of(old(self)@.nodes, name@)),
            r ==> !has_name(final(self)@.nodes, name@),
    {
        let ghost v = old(self)@;
        let d = match self.find_index(name) {
            None => {
                return false;
            },
            Some(i) => i,
        };
        proof {
            lemma_idx_of_unique(v.nodes, name@, d as int);
            assert(d >= 1) by {
                if d == 0 {
                    assert(v.nodes[0].name == v.trunk);
                }
            }
            lemma_delete_branch_wf(v, name@);
        }
        let ghost rm = v.nodes[d as int];
        let ghost target = delete_node(v.nodes, d as int);
        let removed_name = self.branches[d].name.clone();
        let removed_parent: String = match &self.branches[d].parent {
            Some(p) => p.clone(),
            None => {
                proof {
                    assert(v.nodes[d as int].parent is Some);
                    assert(false);
                }
                return false;
            },
        };
        let removed_children = clone_names(&self.branches[d].children);
        let mut out: Vec<TrackedBranch> = Vec::new();
        let mut i: usize = 0;
        while i < self.branches.len()
            invariant
                *self == *old(self),
                v == self@,
                v.wf(),
                1 <= d < v.nodes.len(),
                v.nodes[d as int].name == name@,
                rm == v.nodes[d as int],
                target == delete_node(v.nodes, d as int),
                removed_name@ == rm.name,
                rm.parent == Some(removed_parent@),
                removed_children.deep_view() == rm.children,
                i <= v.nodes.len(),
                out@.len() == (if i <= d {
                    i as int
                } else {
                    i - 1
                }),
                nodes_view(out@) == target.take(out@.len() as int),
            decreases v.nodes.len() - i,
        {
            proof {
                lemma_delete_node_index(v.nodes, d as int);
            }
            if i != d {
                proof {
                    lemma_relink_cases(v, d as int, i as int);
                }
                let ghost pre = out@;
                let b = &self.branches[i];
                if b.name == removed_parent {
                    // the removed node's parent: prune the removed entry
                    // from its children and adopt the removed node's own.
                    let pos = match find_name_pos(&b.children, &removed_name) {
                        Some(k) => k,
                        None => {
                            proof {
                                assert(b@.children.contains(rm.name));
                                assert(false);
                            }
                            return false;
                        },
                    };
                    proof {
                        lemma_remove_child(b@.children, rm.name);
                        assert(child_pos(b@.children, rm.name) == pos as int) by {
                            let cp = child_pos(b@.children, rm.name);
                            if cp < pos as int {
                                assert(b@.children[cp] != b@.children[pos as int]);
                            } else if (pos as int) < cp {
                                assert(b@.children[pos as int] != b@.children[cp]);
                            }
                        }
                    }
                    let mut ch: Vec<String> = Vec::new();
                    let mut k: usize = 0;
                    while k < b.children.len()
                        invariant
                            v.wf(),
                            1 <= d < v.nodes.len(),
                            i < v.nodes.len(),
                            i != d,
                            rm == v.nodes[d as int],
                            b@ == v.nodes[i as int],
                            k <= b@.children.len(),
                            pos < b@.children.len(),
                            b@.children.contains(rm.name),
                            child_pos(b@.children, rm.name) == pos as int,
                            ch@.len() == (if k <= pos {
                                k as int
                            } else {
                                k - 1
                            }),
                            ch.deep_view() =~= remove_child(b@.children, rm.name).take(
                                ch@.len() as int,
                            ),
                        decreases b@.children.len() - k,
                    {
                        proof {
                            lemma_remove_child(b@.children, rm.name);
                        }
                        if k != pos {
                            let ghost chpre = ch.deep_view();
                            ch.push(b.children[k].clone());
                            proof {
                                assert(ch.deep_view() =~= chpre.push(b@.children[k as int]));
                                assert(remove_child(b@.children, rm.name)[chpre.len() as int]
                                    == b@.children[k as int]);
                                assert(ch.deep_view() =~= remove_child(b@.children, rm.name).take(
                                    ch@.len() as int,
                                ));
                            }
                        }
                        k += 1;
                    }
                    proof {
                        lemma_remove_child(b@.children, rm.name);
                        assert(ch.deep_view() =~= remove_child(b@.children, rm.name));
                    }
                    let mut extra = clone_names(&removed_children);
                    let ghost ch_pruned = ch.deep_view();
                    ch.append(&mut extra);
                    proof {
                        assert(ch.deep_view() =~= ch_pruned + rm.children);
                    }
                    let nb = TrackedBranch {
                        name: b.name.clone(),
                        parent: clone_opt_name(&b.parent),
                        children: ch,
                        remote: clone_remote(&b.remote),
                    };
                    proof {
                        assert(nb@ =~= relink(v.nodes[i as int], rm));
                    }
                    out.push(nb);
                } else {
                    let is_child = match &b.parent {
                        Some(q) => *q == removed_name,
                        None => false,
                    };
                    if is_child {
                        let nb = TrackedBranch {
                            name: b.name.clone(),
                            parent: Some(removed_parent.clone()),
                            children: clone_names(&b.children),
                            remote: clone_remote(&b.remote),
                        };
                        proof {
                            assert(nb@ =~= relink(v.nodes[i as int], rm));
                        }
                        out.push(nb);
                    } else {
                        let nb = clone_branch(b);
                        proof {
                            assert(nb@ =~= relink(v.nodes[i as int], rm));
                        }
                        out.push(nb);
                    }
                }
                proof {
                    assert(nodes_view(out@) == target.take(out@.len() as int)) by {
                        assert(nodes_view(out@) =~= target.take(out@.len() as int));
                    }
                }
            }
            i += 1;
        }
        proof {
            lemma_delete_node_index(v.nodes, d as int);
            assert(nodes_view(out@) =~= target);
        }
        self.branches = out;
        proof {
            assert(final(self)@ =~= deleted_view(v, d as int));
        }
        true
    }
}

/// The model of a list of reconciliation results: branch name and whether
/// the remote host reported its pull request closed.
pub open spec fn checked_view(s: Seq<(String, bool)>) -> Seq<(Seq<char>, bool)> {
    s.map_values(|p: (String, bool)| (p.0@, p.1))
}

/// The tree and deletion count after reconciling, in order, a list of
/// (branch, closed) observations: each closed, tracked, non-trunk branch is
/// deleted with its children re-linked.
pub open spec fn delete_closed_spec(v: TreeView, checked: Seq<(Seq<char>, bool)>) -> (TreeView, nat)
    decreases checked.len(),
{
    if checked.len() == 0 {
        (v, 0)
    } else {
        let name = checked[0].0;
        let del = checked[0].1 && name != v.trunk && has_name(v.nodes, name);
        let v2 = if del {
            deleted_view(v, idx_of(v.nodes, name))
        } else {
            v
        };
        let rec = delete_closed_spec(v2, checked.drop_first());
        (
            rec.0,
            rec.1 + if del {
                1nat
            } else {
                0nat
            },
        )
    }
}

impl StTree {
    /// Reconciles the tree with the remote host: for each observed branch
    /// whose pull request was reported closed, removes the tracked node,
    /// re-linking its children to its former parent, and returns how many
    /// branches were deleted. The trunk is never removed. The tree
    /// invariants hold afterwards.
    pub fn delete_closed_branches(&mut self, checked: &Vec<(String, bool)>) -> (count: usize)
        requires
            old(self).wf(),
        ensures
            final(self).wf(),
            count <= checked@.len(),
            final(self)@ == delete_closed_spec(old(self)@, checked_view(checked@)).0,
            count as nat == delete_closed_spec(old(self)@, checked_view(checked@)).1,
    {
        let ghost v0 = self@;
        let ghost cseq = checked_view(checked@);
        proof {
            assert(cseq.skip(0) =~= cseq);
        }
        let mut count: usize = 0;
        let mut i: usize = 0;
        while i < checked.len()
            invariant
                self.wf(),
                i <= checked@.len(),
                count <= i,
                cseq == checked_view(checked@),
                cseq.len() == checked@.len(),
                delete_closed_spec(v0, cseq).0 == delete_closed_spec(
                    self@,
                    cseq.skip(i as int),
                ).0,
                delete_closed_spec(v0, cseq).1 == delete_closed_spec(self@, cseq.skip(i as int)).1
                    + count,
            decreases checked@.len() - i,
        {
            let ghost pre = self@;
            let ghost rest = cseq.skip(i as int);
            proof {
                assert(rest[0] == cseq[i as int]);
                assert(rest.drop_first() =~= cseq.skip(i as int + 1));
            }
            let pair = &checked[i];
            let deleted: bool;
            if pair.1 && !(pair.0 == self.trunk_name) {
                deleted = self.delete_branch(&pair.0);
            } else {
                deleted = false;
            }
            if deleted {
                count += 1;
            }
            proof {
                assert(cseq[i as int].0 == pair.0@ && cseq[i as int].1 == pair.1);
                let del = rest[0].1 && rest[0].0 != pre.trunk && has_name(pre.nodes, rest[0].0);
                assert(deleted == del);
                if del {
                    assert(self@ == deleted_view(pre, idx_of(pre.nodes, rest[0].0)));
                } else {
                    assert(self@ == pre);
                }
                assert(delete_closed_spec(pre, rest).0 == delete_closed_spec(
                    self@,
                    cseq.skip(i as int + 1),
                ).0);
            }
            i += 1;
        }
        proof {
            assert(cseq.skip(cseq.len() as int) =~= Seq::<(Seq<char>, bool)>::empty());
        }
        count
    }
}

/// Law: deleting a non-trunk branch re-links each of its children to its
/// former parent, removes exactly that branch, and preserves all the tree
/// invariants — single root, unique names, bidirectional parent/child
/// consistency, and acyclicity.
pub proof fn lemma_delete_branch_wf(v: TreeView, name: Seq<char>)
    requires
        v.wf(),
        has_name(v.nodes, name),
        name != v.trunk,
    ensures
        ({
            let d = idx_of(v.nodes, name);
            let w = deleted_view(v, d);
            &&& w.wf()
            &&& !has_name(w.nodes, name)
            &&& w.nodes.len() == v.nodes.len() - 1
            &&& forall|j: int|
                0 <= j < v.nodes.len() && (#[trigger] v.nodes[j]).parent == Some(name) ==> has_name(
                    w.nodes,
                    v.nodes[j].name,
                ) && node_of(w, v.nodes[j].name).parent == v.nodes[idx_of(v.nodes, name)].parent
        }),
{
    let d = idx_of(v.nodes, name);
    assert(0 <= d < v.nodes.len() && v.nodes[d].name == name) by {
        let j = choose|j: int| 0 <= j < v.nodes.len() && v.nodes[j].name == name;
        lemma_idx_of_unique(v.nodes, name, j);
    }
    assert(d >= 1) by {
        if d == 0 {
            assert(v.nodes[0].name == v.trunk);
        }
    }
    let w = deleted_view(v, d);
    lemma_delete_names(v, d);
    lemma_delete_trunk(v, d);
    lemma_delete_parents(v, d);
    lemma_delete_children_sound(v, d);
    lemma_delete_children_complete(v, d);
    lemma_delete_children_unique(v, d);
    lemma_delete_node_index(v.nodes, d);
    let rm = v.nodes[d];
    assert forall|j: int|
        0 <= j < v.nodes.len() && (#[trigger] v.nodes[j]).parent == Some(name) implies has_name(
        w.nodes,
        v.nodes[j].name,
    ) && node_of(w, v.nodes[j].name).parent == v.nodes[d].parent by {
        assert(j != d) by {
            if j == d {
                assert(has_name_before(v.nodes, name, d));
                let jj = choose|jj: int| 0 <= jj < d && v.nodes[jj].name == name;
                assert(v.nodes[jj].name != v.nodes[d].name);
            }
        }
        lemma_relink_cases(v, d, j);
        assert(j > d);
        let t = j - 1;
        assert(unremoved_index(d, t) == j);
        assert(w.nodes[t].name == v.nodes[j].name);
        assert(w.nodes[t].parent == rm.parent);
        lemma_idx_of_unique(w.nodes, v.nodes[j].name, t);
    }
}

} // verus!
