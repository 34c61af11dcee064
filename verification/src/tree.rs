//! The branch tree store: one node per tracked branch, linked by
//! parent/child edges and rooted at the trunk.
//!
//! The nodes live in a vector ordered so that every node's parent appears
//! at a strictly smaller index; that ordering is part of the invariant and
//! is what makes every walk towards the trunk terminate.

use vstd::prelude::*;

use crate::errors::StError;
use crate::errors::StResult;

verus! {

/// Publication state of a branch: set once a pull request exists for it.
pub struct RemoteMetadata {
    /// The numeric identifier of the pull request on the remote host.
    pub pr_number: u64,
    /// The remote (fork) the pull request's head lives on; empty means
    /// "same as the default remote".
    pub remote_name: String,
    /// The navigation comment already posted on the pull request, if any.
    pub comment_id: Option<u64>,
}

/// One tracked branch.
pub struct TrackedBranch {
    /// The branch name; unique within the tree.
    pub name: String,
    /// The branch this one stacks on; `None` only for the trunk.
    pub parent: Option<String>,
    /// The names of the branches whose parent is this one.
    pub children: Vec<String>,
    /// Publication state; present once the branch has been published.
    pub remote: Option<RemoteMetadata>,
}

/// The full store: the tracked branches, the trunk and the default remote.
pub struct StTree {
    /// All tracked branches; parents precede their children.
    pub branches: Vec<TrackedBranch>,
    /// The designated root branch.
    pub trunk_name: String,
    /// The default remote for pushes and pull-request targeting.
    pub remote_name: String,
}

/// Mathematical model of [`RemoteMetadata`].
#[verifier::ext_equal]
pub ghost struct RemoteMetaView {
    pub pr_number: u64,
    pub remote_name: Seq<char>,
    pub comment_id: Option<u64>,
}

/// Mathematical model of [`TrackedBranch`].
#[verifier::ext_equal]
pub ghost struct BranchView {
    pub name: Seq<char>,
    pub parent: Option<Seq<char>>,
    pub children: Seq<Seq<char>>,
    pub remote: Option<RemoteMetaView>,
}

/// Mathematical model of [`StTree`].
#[verifier::ext_equal]
pub ghost struct TreeView {
    pub nodes: Seq<BranchView>,
    pub trunk: Seq<char>,
    pub remote: Seq<char>,
}

impl View for RemoteMetadata {
    type V = RemoteMetaView;

    open spec fn view(&self) -> RemoteMetaView {
        RemoteMetaView {
            pr_number: self.pr_number,
            remote_name: self.remote_name@,
            comment_id: self.comment_id,
        }
    }
}

impl View for TrackedBranch {
    type V = BranchView;

    open spec fn view(&self) -> BranchView {
        BranchView {
            name: self.name@,
            parent: match self.parent {
                Some(p) => Some(p@),
                None => None,
            },
            children: self.children.deep_view(),
            remote: match self.remote {
                Some(m) => Some(m@),
                None => None,
            },
        }
    }
}

/// The sequence of node models of a sequence of branches.
pub open spec fn nodes_view(branches: Seq<TrackedBranch>) -> Seq<BranchView> {
    Seq::new(branches.len(), |i: int| branches[i]@)
}

impl View for StTree {
    type V = TreeView;

    open spec fn view(&self) -> TreeView {
        TreeView {
            nodes: nodes_view(self.branches@),
            trunk: self.trunk_name@,
            remote: self.remote_name@,
        }
    }
}

/// Whether some node in `nodes` is named `n`.
pub open spec fn has_name(nodes: Seq<BranchView>, n: Seq<char>) -> bool {
    exists|j: int| 0 <= j < nodes.len() && nodes[j].name == n
}

/// Whether some node at an index below `i` is named `n`.
pub open spec fn has_name_before(nodes: Seq<BranchView>, n: Seq<char>, i: int) -> bool {
    exists|j: int| 0 <= j < i && nodes[j].name == n
}

/// The index of the node named `n` (meaningful only when names are unique
/// and `has_name` holds).
pub open spec fn idx_of(nodes: Seq<BranchView>, n: Seq<char>) -> int {
    choose|j: int| 0 <= j < nodes.len() && nodes[j].name == n
}

/// The node named `n`.
pub open spec fn node_of(v: TreeView, n: Seq<char>) -> BranchView {
    v.nodes[idx_of(v.nodes, n)]
}

impl TreeView {
    /// Every node name occurs once.
    pub open spec fn names_unique(self) -> bool {
        forall|i: int, j: int|
            0 <= i < j < self.nodes.len() ==> self.nodes[i].name != self.nodes[j].name
    }

    /// The node at index 0 is the trunk: named after `trunk`, without a
    /// parent and without remote metadata of its own.
    pub open spec fn trunk_is_root(self) -> bool {
        &&& self.nodes.len() >= 1
        &&& self.nodes[0].name == self.trunk
        &&& self.nodes[0].parent is None
        &&& self.nodes[0].remote is None
    }

    /// Every non-trunk node has a parent, and that parent is a node at a
    /// strictly smaller index; this is the shape that rules out cycles.
    pub open spec fn parents_resolve(self) -> bool {
        forall|i: int|
            1 <= i < self.nodes.len() ==> (#[trigger] self.nodes[i]).parent is Some
                && has_name_before(self.nodes, self.nodes[i].parent->0, i)
    }

    /// Every entry of a children list names a node whose parent is the
    /// listing node.
    pub open spec fn children_sound(self) -> bool {
        forall|i: int, k: int|
            0 <= i < self.nodes.len() && 0 <= k < (#[trigger] self.nodes[i]).children.len()
                ==> child_edge(self.nodes, i, #[trigger] self.nodes[i].children[k])
    }

    /// Every parent edge is mirrored by an entry in the parent's children
    /// list.
    pub open spec fn children_complete(self) -> bool {
        forall|i: int, j: int|
            0 <= i < self.nodes.len() && 1 <= j < self.nodes.len()
                && (#[trigger] self.nodes[j]).parent == Some((#[trigger] self.nodes[i]).name)
                ==> self.nodes[i].children.contains(self.nodes[j].name)
    }

    /// No children list names the same branch twice.
    pub open spec fn children_unique(self) -> bool {
        forall|i: int, k1: int, k2: int|
            0 <= i < self.nodes.len() && 0 <= k1 < k2 < self.nodes[i].children.len()
                ==> #[trigger] self.nodes[i].children[k1] != #[trigger] self.nodes[i].children[k2]
    }

    /// The tree invariants: a single root, unique names, parent links that
    /// resolve to earlier nodes (hence no cycles), and children lists that
    /// mirror the parent links exactly.
    pub open spec fn wf(self) -> bool {
        &&& self.trunk_is_root()
        &&& self.names_unique()
        &&& self.parents_resolve()
        &&& self.children_sound()
        &&& self.children_complete()
        &&& self.children_unique()
    }
}

/// There is a node named `c` whose parent is the node at index `i`.
pub open spec fn child_edge(nodes: Seq<BranchView>, i: int, c: Seq<char>) -> bool {
    exists|j: int|
        1 <= j < nodes.len() && nodes[j].name == c && nodes[j].parent == Some(nodes[i].name)
}

impl RemoteMetadata {
    /// A fresh publication record: the pull request number and the remote
    /// its head lives on, with no navigation comment yet.
    pub fn new(pr_number: u64, remote_name: String) -> (r: RemoteMetadata)
        ensures
            r@ == (RemoteMetaView { pr_number, remote_name: remote_name@, comment_id: None }),
    {
        RemoteMetadata { pr_number, remote_name, comment_id: None }
    }
}

impl StTree {
    /// Whether this tree satisfies the invariants.
    pub open spec fn wf(self) -> bool {
        self@.wf()
    }

    /// A fresh tree holding only the trunk.
    pub fn fresh(remote_name: String, trunk_name: String) -> (r: StTree)
        ensures
            r.wf(),
            r@.trunk == trunk_name@,
            r@.remote == remote_name@,
            r@.nodes.len() == 1,
            r@.nodes[0].name == trunk_name@,
            r@.nodes[0].children.len() == 0,
    {
        let trunk = TrackedBranch {
            name: trunk_name.clone(),
            parent: None,
            children: Vec::new(),
            remote: None,
        };
        let mut branches: Vec<TrackedBranch> = Vec::new();
        branches.push(trunk);
        let r = StTree { branches, trunk_name, remote_name };
        proof {
            assert(r@.nodes.len() == 1);
            assert(r@.nodes[0].children.len() == 0);
        }
        r
    }

    /// The index of the branch named `name`, if it is tracked.
    pub fn find_index(&self, name: &String) -> (r: Option<usize>)
        ensures
            match r {
                Some(i) => i < self@.nodes.len() && self@.nodes[i as int].name == name@,
                None => !has_name(self@.nodes, name@),
            },
    {
        let mut i: usize = 0;
        while i < self.branches.len()
            invariant
                i <= self@.nodes.len(),
                forall|j: int| 0 <= j < i ==> (#[trigger] self@.nodes[j]).name != name@,
            decreases self@.nodes.len() - i,
        {
            if self.branches[i].name == *name {
                return Some(i);
            }
            i += 1;
        }
        None
    }

    /// The tracked branch named `name`, if any.
    pub fn get(&self, name: &String) -> (r: Option<&TrackedBranch>)
        ensures
            (r is Some) == has_name(self@.nodes, name@),
            self.wf() && r is Some ==> r->0@ == node_of(self@, name@),
    {
        match self.find_index(name) {
            Some(i) => {
                let b = &self.branches[i];
                proof {
                    assert(has_name(self@.nodes, name@)) by {
                        assert(self@.nodes[i as int].name == name@);
                    }
                    if self@.names_unique() {
                        lemma_idx_of_unique(self@.nodes, name@, i as int);
                    }
                }
                Some(b)
            },
            None => None,
        }
    }
}

/// The position of `n` in a children list (meaningful only when the list
/// contains `n` exactly once).
pub open spec fn child_pos(children: Seq<Seq<char>>, n: Seq<char>) -> int {
    choose|k: int| 0 <= k < children.len() && children[k] == n
}

/// A children list with the entry `n` taken out.
pub open spec fn remove_child(children: Seq<Seq<char>>, n: Seq<char>) -> Seq<Seq<char>> {
    if children.contains(n) {
        children.remove(child_pos(children, n))
    } else {
        children
    }
}

/// How deleting the node `removed` rewrites one remaining node: the
/// removed node's parent absorbs the removed node's children in place of
/// the entry for the removed node, and each child of the removed node is
/// re-linked to that former parent. Every other node is untouched.
pub open spec fn relink(b: BranchView, removed: BranchView) -> BranchView {
    if removed.parent == Some(b.name) {
        BranchView { children: remove_child(b.children, removed.name) + removed.children, ..b }
    } else if b.parent == Some(removed.name) {
        BranchView { parent: removed.parent, ..b }
    } else {
        b
    }
}

/// The node sequence after deleting the node at index `d` and re-linking
/// around it.
pub open spec fn delete_node(nodes: Seq<BranchView>, d: int) -> Seq<BranchView> {
    nodes.remove(d).map_values(|b: BranchView| relink(b, nodes[d]))
}

/// The index in `nodes` that the index `t` of `nodes.remove(d)` came from.
pub open spec fn unremoved_index(d: int, t: int) -> int {
    if t < d {
        t
    } else {
        t + 1
    }
}

/// Index-wise description of `delete_node`.
pub proof fn lemma_delete_node_index(nodes: Seq<BranchView>, d: int)
    requires
        0 <= d < nodes.len(),
    ensures
        delete_node(nodes, d).len() == nodes.len() - 1,
        forall|t: int|
            0 <= t < nodes.len() - 1 ==> #[trigger] delete_node(nodes, d)[t] == relink(
                nodes[unremoved_index(d, t)],
                nodes[d],
            ),
{
    let rem = nodes.remove(d);
    assert(rem.len() == nodes.len() - 1);
    assert forall|t: int| 0 <= t < nodes.len() - 1 implies #[trigger] delete_node(nodes, d)[t]
        == relink(nodes[unremoved_index(d, t)], nodes[d]) by {
        assert(rem[t] == nodes[unremoved_index(d, t)]);
    }
}

/// Index-wise description of `remove_child` on a duplicate-free list that
/// contains `n`.
pub proof fn lemma_remove_child(s: Seq<Seq<char>>, n: Seq<char>)
    requires
        s.contains(n),
        forall|k1: int, k2: int| 0 <= k1 < k2 < s.len() ==> s[k1] != s[k2],
    ensures
        ({
            let p = child_pos(s, n);
            let t = remove_child(s, n);
            &&& 0 <= p < s.len() && s[p] == n
            &&& t.len() == s.len() - 1
            &&& forall|k: int|
                0 <= k < t.len() ==> #[trigger] t[k] == s[unremoved_index(p, k)] && t[k] != n
            &&& forall|k: int| 0 <= k < s.len() && s[k] != n ==> t.contains(s[k])
            &&& forall|k1: int, k2: int| 0 <= k1 < k2 < t.len() ==> t[k1] != t[k2]
        }),
{
    let p = child_pos(s, n);
    assert(exists|k: int| 0 <= k < s.len() && s[k] == n) by {
        let w = choose|k: int| 0 <= k < s.len() && s[k] == n;
    }
    assert(0 <= p < s.len() && s[p] == n);
    let t = remove_child(s, n);
    assert forall|k: int| 0 <= k < t.len() implies #[trigger] t[k] == s[unremoved_index(p, k)]
        && t[k] != n by {
        assert(t[k] == s[unremoved_index(p, k)]);
        let u = unremoved_index(p, k);
        assert(u != p);
        if u < p {
            assert(s[u] != s[p]);
        } else {
            assert(s[p] != s[u]);
        }
    }
    assert forall|k: int| 0 <= k < s.len() && s[k] != n implies t.contains(s[k]) by {
        if k < p {
            assert(t[k] == s[k]);
        } else {
            assert(k != p);
            assert(t[k - 1] == s[k]);
        }
    }
}

/// How `relink` acts on the node at index `r` when the node at index `d`
/// is deleted from a well-formed tree: at most one of the two rewrites
/// applies, the removed node's parent sits strictly before it, its children
/// strictly after it, and name and remote metadata are never touched.
pub(crate) proof fn lemma_relink_cases(v: TreeView, d: int, r: int)
    requires
        v.wf(),
        1 <= d < v.nodes.len(),
        0 <= r < v.nodes.len(),
        r != d,
    ensures
        ({
            let rm = v.nodes[d];
            let b = v.nodes[r];
            let b2 = relink(b, rm);
            &&& rm.parent is Some
            &&& b2.name == b.name
            &&& b2.remote == b.remote
            &&& (b.parent == Some(rm.name) ==> b2.parent == rm.parent && b2.children == b.children
                && r > d && b.name != rm.parent->0)
            &&& (b.name == rm.parent->0 ==> b2.children == remove_child(b.children, rm.name)
                + rm.children && b2.parent == b.parent && r < d && b.parent != Some(rm.name)
                && b.children.contains(rm.name))
            &&& (b.name != rm.parent->0 && b.parent != Some(rm.name) ==> b2 == b)
            &&& (b.parent != Some(rm.name) ==> b2.parent == b.parent)
            &&& (b.name != rm.parent->0 ==> b2.children == b.children)
        }),
{
    let rm = v.nodes[d];
    let b = v.nodes[r];
    assert(rm.parent is Some);
    let p = rm.parent->0;
    if b.name == p {
        // `b` is the removed node's parent: it sits strictly before `d`.
        assert(has_name_before(v.nodes, p, d));
        let j = choose|j: int| 0 <= j < d && v.nodes[j].name == p;
        assert(j == r) by {
            if j < r {
                assert(v.nodes[j].name != v.nodes[r].name);
            } else if r < j {
                assert(v.nodes[r].name != v.nodes[j].name);
            }
        }
        assert(r < d);
        // It cannot itself be a child of the removed node.
        if b.parent == Some(rm.name) {
            assert(r >= 1) by {
                if r == 0 {
                    assert(v.nodes[0].parent is None);
                }
            }
            assert(has_name_before(v.nodes, rm.name, r));
            let j2 = choose|j2: int| 0 <= j2 < r && v.nodes[j2].name == rm.name;
            assert(j2 == d) by {
                if j2 < d {
                    assert(v.nodes[j2].name != v.nodes[d].name);
                } else if d < j2 {
                    assert(v.nodes[d].name != v.nodes[j2].name);
                }
            }
            assert(false);
        }
        // Its children list holds the removed node's name.
        assert(b.children.contains(rm.name)) by {
            assert(v.nodes[d].parent == Some(v.nodes[r].name));
            assert(d >= 1);
        }
        assert(relink(b, rm) == (BranchView {
            children: remove_child(b.children, rm.name) + rm.children,
            ..b
        }));
    } else if b.parent == Some(rm.name) {
        // `b` is a child of the removed node: it sits strictly after `d`.
        assert(r >= 1) by {
            if r == 0 {
                assert(v.nodes[0].parent is None);
            }
        }
        assert(has_name_before(v.nodes, rm.name, r));
        let j = choose|j: int| 0 <= j < r && v.nodes[j].name == rm.name;
        assert(j == d) by {
            if j < d {
                assert(v.nodes[j].name != v.nodes[d].name);
            } else if d < j {
                assert(v.nodes[d].name != v.nodes[j].name);
            }
        }
        assert(r > d);
    }
}

/// A copy of a list of names, equal node for node.
pub fn clone_names(v: &Vec<String>) -> (r: Vec<String>)
    ensures
        r.deep_view() == v.deep_view(),
        r@.len() == v@.len(),
{
    let mut r: Vec<String> = Vec::new();
    let mut k: usize = 0;
    while k < v.len()
        invariant
            k <= v@.len(),
            r.deep_view() =~= v.deep_view().take(k as int),
            r@.len() == k,
        decreases v@.len() - k,
    {
        r.push(v[k].clone());
        k += 1;
    }
    proof {
        assert(r.deep_view() =~= v.deep_view());
    }
    r
}

/// A copy of an optional branch name, equal in model.
pub fn clone_opt_name(o: &Option<String>) -> (r: Option<String>)
    ensures
        (r is Some) == (o is Some),
        r is Some ==> r->0@ == o->0@,
{
    match o {
        Some(p) => Some(p.clone()),
        None => None,
    }
}

/// A copy of optional publication state, equal in model.
pub fn clone_remote(o: &Option<RemoteMetadata>) -> (r: Option<RemoteMetadata>)
    ensures
        (r is Some) == (o is Some),
        r is Some ==> r->0@ == o->0@,
{
    match o {
        Some(m) => Some(
            RemoteMetadata {
                pr_number: m.pr_number,
                remote_name: m.remote_name.clone(),
                comment_id: m.comment_id,
            },
        ),
        None => None,
    }
}

/// A copy of a tracked branch, equal in model.
pub fn clone_branch(b: &TrackedBranch) -> (r: TrackedBranch)
    ensures
        r@ == b@,
{
    let r = TrackedBranch {
        name: b.name.clone(),
        parent: clone_opt_name(&b.parent),
        children: clone_names(&b.children),
        remote: clone_remote(&b.remote),
    };
    proof {
        assert(r@ =~= b@);
    }
    r
}

/// The position of `name` in a list of names, if present.
pub fn find_name_pos(children: &Vec<String>, name: &String) -> (r: Option<usize>)
    ensures
        match r {
            Some(k) => k < children.deep_view().len() && children.deep_view()[k as int] == name@
                && (forall|j: int| 0 <= j < k ==> children.deep_view()[j] != name@),
            None => !children.deep_view().contains(name@),
        },
{
    let mut k: usize = 0;
    while k < children.len()
        invariant
            k <= children@.len(),
            forall|j: int| 0 <= j < k ==> children.deep_view()[j] != name@,
        decreases children@.len() - k,
    {
        if children[k] == *name {
            return Some(k);
        }
        k += 1;
    }
    proof {
        if children.deep_view().contains(name@) {
            let j = choose|j: int|
                0 <= j < children.deep_view().len() && children.deep_view()[j] == name@;
        }
    }
    None
}

/// The nodes with all publication state cleared.
pub open spec fn cleared_nodes(nodes: Seq<BranchView>) -> Seq<BranchView> {
    nodes.map_values(|b: BranchView| BranchView { remote: None, ..b })
}

/// The invariants do not depend on publication state: a tree whose nodes
/// carry the same names, parents and children as a well-formed one — and
/// still no metadata on the trunk — is well-formed.
pub proof fn lemma_wf_links_preserved(v: TreeView, w: TreeView)
    requires
        v.wf(),
        w.trunk == v.trunk,
        w.nodes.len() == v.nodes.len(),
        forall|i: int|
            0 <= i < v.nodes.len() ==> (#[trigger] w.nodes[i]).name == v.nodes[i].name
                && w.nodes[i].parent == v.nodes[i].parent && w.nodes[i].children
                == v.nodes[i].children,
        w.nodes[0].remote is None,
    ensures
        w.wf(),
{
    assert forall|i: int|
        1 <= i < w.nodes.len() implies (#[trigger] w.nodes[i]).parent is Some && has_name_before(
        w.nodes,
        w.nodes[i].parent->0,
        i,
    ) by {
        assert(has_name_before(v.nodes, v.nodes[i].parent->0, i));
        let j = choose|j: int| 0 <= j < i && v.nodes[j].name == v.nodes[i].parent->0;
        assert(w.nodes[j].name == v.nodes[j].name);
    }
    assert forall|i: int, k: int|
        0 <= i < w.nodes.len() && 0 <= k < (#[trigger] w.nodes[i]).children.len() implies child_edge(
        w.nodes,
        i,
        #[trigger] w.nodes[i].children[k],
    ) by {
        assert(child_edge(v.nodes, i, v.nodes[i].children[k]));
        let j = choose|j: int|
            1 <= j < v.nodes.len() && v.nodes[j].name == v.nodes[i].children[k]
                && v.nodes[j].parent == Some(v.nodes[i].name);
        assert(w.nodes[j].name == v.nodes[j].name);
        assert(w.nodes[j].parent == v.nodes[j].parent);
    }
    assert forall|i: int, j: int|
        0 <= i < w.nodes.len() && 1 <= j < w.nodes.len() && (#[trigger] w.nodes[j]).parent == Some(
            (#[trigger] w.nodes[i]).name,
        ) implies w.nodes[i].children.contains(w.nodes[j].name) by {
        assert(v.nodes[j].parent == Some(v.nodes[i].name));
        assert(v.nodes[i].children.contains(v.nodes[j].name));
    }
}

impl StTree {
    /// Records a fresh submission on `branch`: its pull request number and
    /// the remote the pull request's head lives on, with no navigation
    /// comment yet. The trunk is never submitted.
    #[verifier::rlimit(80)]
    pub fn record_submission(&mut self, branch: &String, pr_number: u64, remote_name: String) -> (r:
        StResult<()>)
        requires
            old(self).wf(),
            branch@ != old(self)@.trunk,
        ensures
            final(self).wf(),
            (r is Ok) == has_name(old(self)@.nodes, branch@),
            r is Ok ==> final(self)@ == (TreeView {
                nodes: old(self)@.nodes.update(
                    idx_of(old(self)@.nodes, branch@),
                    BranchView {
                        remote: Some(
                            RemoteMetaView { pr_number, remote_name: remote_name@, comment_id: None },
                        ),
                        ..node_of(old(self)@, branch@)
                    },
                ),
                ..old(self)@
            }),
            r is Err ==> final(self)@ == old(self)@ && (r->Err_0 matches StError::BranchNotTracked(
                n,
            ) && n@ == branch@),
    {
        let ghost v = self@;
        let d = match self.find_index(branch) {
            None => {
                return Err(StError::BranchNotTracked(branch.clone()));
            },
            Some(i) => i,
        };
        proof {
            lemma_idx_of_unique(v.nodes, branch@, d as int);
            assert(d >= 1) by {
                if d == 0 {
                    assert(v.nodes[0].name == v.trunk);
                }
            }
        }
        let mut b = self.branches.remove(d);
        b.remote = Some(RemoteMetadata::new(pr_number, remote_name));
        self.branches.insert(d, b);
        proof {
            let target = v.nodes.update(
                d as int,
                BranchView {
                    remote: Some(
                        RemoteMetaView { pr_number, remote_name: remote_name@, comment_id: None },
                    ),
                    ..v.nodes[d as int]
                },
            );
            assert(self@.nodes =~= target);
            assert(self@ =~= (TreeView { nodes: target, ..v }));
            lemma_wf_links_preserved(v, self@);
        }
        Ok(())
    }

    /// Records the identifier of the navigation comment just created on
    /// `branch`'s pull request. Only meaningful for a tracked branch that
    /// has been published.
    pub fn record_comment_id(&mut self, branch: &String, comment_id: u64)
        requires
            old(self).wf(),
            has_name(old(self)@.nodes, branch@),
            node_of(old(self)@, branch@).remote is Some,
        ensures
            final(self).wf(),
            final(self)@ == (TreeView {
                nodes: old(self)@.nodes.update(
                    idx_of(old(self)@.nodes, branch@),
                    BranchView {
                        remote: Some(
                            RemoteMetaView {
                                comment_id: Some(comment_id),
                                ..node_of(old(self)@, branch@).remote->0
                            },
                        ),
                        ..node_of(old(self)@, branch@)
                    },
                ),
                ..old(self)@
            }),
    {
        let ghost v = self@;
        let d = match self.find_index(branch) {
            None => {
                proof {
                    assert(false);
                }
                return ;
            },
            Some(i) => i,
        };
        proof {
            lemma_idx_of_unique(v.nodes, branch@, d as int);
            assert(d >= 1) by {
                if d == 0 {
                    assert(v.nodes[0].remote is None);
                }
            }
        }
        let mut b = self.branches.remove(d);
        let meta = match b.remote {
            Some(m) => m,
            None => {
                proof {
                    assert(false);
                }
                RemoteMetadata::new(0, String::new())
            },
        };
        b.remote = Some(
            RemoteMetadata {
                pr_number: meta.pr_number,
                remote_name: meta.remote_name,
                comment_id: Some(comment_id),
            },
        );
        self.branches.insert(d, b);
        proof {
            let target = v.nodes.update(
                d as int,
                BranchView {
                    remote: Some(
                        RemoteMetaView {
                            comment_id: Some(comment_id),
                            ..node_of(v, branch@).remote->0
                        },
                    ),
                    ..node_of(v, branch@)
                },
            );
            assert(self@.nodes =~= target);
            assert(self@ =~= (TreeView { nodes: target, ..v }));
            lemma_wf_links_preserved(v, self@);
        }
    }

    /// Clears the publication state of every tracked branch; the tree's
    /// shape is untouched.
    #[verifier::rlimit(60)]
    pub fn reset_tracked_branches(&mut self)
        requires
            old(self).wf(),
        ensures
            final(self).wf(),
            final(self)@ == (TreeView { nodes: cleared_nodes(old(self)@.nodes), ..old(self)@ }),
    {
        let ghost v = self@;
        let mut i: usize = 0;
        while i < self.branches.len()
            invariant
                i <= v.nodes.len(),
                self@.nodes.len() == v.nodes.len(),
                self@.trunk == v.trunk,
                self@.remote == v.remote,
                forall|j: int|
                    0 <= j < i ==> #[trigger] self@.nodes[j] == (BranchView {
                        remote: None,
                        ..v.nodes[j]
                    }),
                forall|j: int| i <= j < v.nodes.len() ==> #[trigger] self@.nodes[j] == v.nodes[j],
            decreases v.nodes.len() - i,
        {
            let ghost pre = self@.nodes;
            let mut b = self.branches.remove(i);
            b.remote = None;
            self.branches.insert(i, b);
            proof {
                assert(self@.nodes =~= pre.update(
                    i as int,
                    BranchView { remote: None, ..pre[i as int] },
                ));
            }
            i += 1;
        }
        proof {
            assert(self@.nodes =~= cleared_nodes(v.nodes));
            assert(self@ =~= (TreeView { nodes: cleared_nodes(v.nodes), ..v }));
            lemma_wf_links_preserved(v, self@);
        }
    }

    /// Changes the default remote. When the new name differs from the old
    /// one, every branch's publication state is cleared: pull requests on
    /// the old remote no longer describe this tree.
    pub fn set_remote_name(&mut self, name: String)
        requires
            old(self).wf(),
        ensures
            final(self).wf(),
            name@ == old(self)@.remote ==> final(self)@ == old(self)@,
            name@ != old(self)@.remote ==> final(self)@ == (TreeView {
                nodes: cleared_nodes(old(self)@.nodes),
                remote: name@,
                ..old(self)@
            }),
    {
        let ghost v = self@;
        if name == self.remote_name {
            return ;
        }
        self.remote_name = name;
        proof {
            assert(self@ =~= (TreeView { remote: self.remote_name@, ..v }));
            lemma_wf_links_preserved(v, self@);
        }
        self.reset_tracked_branches();
        proof {
            assert(final(self)@ =~= (TreeView {
                nodes: cleared_nodes(v.nodes),
                remote: self.remote_name@,
                ..v
            }));
        }
    }
}

impl StTree {
    /// Whether some node at an index below `i` carries the name `n`.
    fn has_name_before_exec(&self, n: &String, i: usize) -> (r: bool)
        requires
            i <= self@.nodes.len(),
        ensures
            r == has_name_before(self@.nodes, n@, i as int),
    {
        let mut j: usize = 0;
        while j < i
            invariant
                j <= i,
                i <= self@.nodes.len(),
                forall|t: int| 0 <= t < j ==> (#[trigger] self@.nodes[t]).name != n@,
            decreases i - j,
        {
            if self.branches[j].name == *n {
                proof {
                    assert(has_name_before(self@.nodes, n@, i as int)) by {
                        assert(0 <= j < i && self@.nodes[j as int].name == n@);
                    }
                }
                return true;
            }
            j += 1;
        }
        proof {
            if has_name_before(self@.nodes, n@, i as int) {
                let t = choose|t: int| 0 <= t < i as int && self@.nodes[t].name == n@;
            }
        }
        false
    }

    /// Whether some node named `c` has the node at index `i` as parent.
    fn child_edge_exec(&self, i: usize, c: &String) -> (r: bool)
        requires
            i < self@.nodes.len(),
        ensures
            r == child_edge(self@.nodes, i as int, c@),
    {
        let mut j: usize = 1;
        while j < self.branches.len()
            invariant
                1 <= j,
                i < self@.nodes.len(),
                forall|t: int|
                    1 <= t < j ==> !((#[trigger] self@.nodes[t]).name == c@ && self@.nodes[t].parent
                        == Some(self@.nodes[i as int].name)),
            decreases self@.nodes.len() - j,
        {
            let b = &self.branches[j];
            let name_match = b.name == *c;
            let parent_match = match &b.parent {
                Some(p) => *p == self.branches[i].name,
                None => false,
            };
            if name_match && parent_match {
                proof {
                    assert(child_edge(self@.nodes, i as int, c@)) by {
                        assert(1 <= j < self@.nodes.len() && self@.nodes[j as int].name == c@
                            && self@.nodes[j as int].parent == Some(self@.nodes[i as int].name));
                    }
                }
                return true;
            }
            j += 1;
        }
        proof {
            if child_edge(self@.nodes, i as int, c@) {
                let t = choose|t: int|
                    1 <= t < self@.nodes.len() && self@.nodes[t].name == c@
                        && self@.nodes[t].parent == Some(self@.nodes[i as int].name);
            }
        }
        false
    }

    /// Whether the node at index 0 is a proper trunk.
    fn trunk_is_root_exec(&self) -> (r: bool)
        ensures
            r == self@.trunk_is_root(),
    {
        if self.branches.len() == 0 {
            return false;
        }
        let b0 = &self.branches[0];
        b0.name == self.trunk_name && b0.parent.is_none() && b0.remote.is_none()
    }

    /// Whether no two nodes share a name.
    fn names_unique_exec(&self) -> (r: bool)
        ensures
            r == self@.names_unique(),
    {
        let mut i: usize = 0;
        while i < self.branches.len()
            invariant
                i <= self@.nodes.len(),
                forall|a: int, b: int|
                    0 <= a < b < self@.nodes.len() && a < i ==> self@.nodes[a].name
                        != self@.nodes[b].name,
            decreases self@.nodes.len() - i,
        {
            let mut j: usize = i + 1;
            while j < self.branches.len()
                invariant
                    i < j <= self@.nodes.len() || j == i + 1,
                    i < self@.nodes.len(),
                    forall|b: int| i < b < j ==> self@.nodes[i as int].name != self@.nodes[b].name,
                decreases self@.nodes.len() - j,
            {
                if self.branches[i].name == self.branches[j].name {
                    proof {
                        assert(!self@.names_unique()) by {
                            assert(self@.nodes[i as int].name == self@.nodes[j as int].name);
                        }
                    }
                    return false;
                }
                j += 1;
            }
            i += 1;
        }
        true
    }

    /// Whether every non-trunk node's parent names an earlier node.
    fn parents_resolve_exec(&self) -> (r: bool)
        ensures
            r == self@.parents_resolve(),
    {
        let mut i: usize = 1;
        while i < self.branches.len()
            invariant
                1 <= i,
                forall|t: int|
                    1 <= t < i ==> (#[trigger] self@.nodes[t]).parent is Some && has_name_before(
                        self@.nodes,
                        self@.nodes[t].parent->0,
                        t,
                    ),
            decreases self@.nodes.len() - i,
        {
            let ok = match &self.branches[i].parent {
                None => false,
                Some(p) => self.has_name_before_exec(p, i),
            };
            if !ok {
                proof {
                    assert(!self@.parents_resolve()) by {
                        assert(1 <= i < self@.nodes.len() && !(self@.nodes[i as int].parent is Some
                            && has_name_before(self@.nodes, self@.nodes[i as int].parent->0, i as int)));
                    }
                }
                return false;
            }
            i += 1;
        }
        true
    }

    /// Whether every children entry names a node whose parent is the
    /// listing node.
    fn children_sound_exec(&self) -> (r: bool)
        ensures
            r == self@.children_sound(),
    {
        let mut i: usize = 0;
        while i < self.branches.len()
            invariant
                i <= self@.nodes.len(),
                forall|a: int, k: int|
                    0 <= a < self@.nodes.len() && a < i && 0 <= k < (
                    #[trigger] self@.nodes[a]).children.len() ==> child_edge(
                        self@.nodes,
                        a,
                        #[trigger] self@.nodes[a].children[k],
                    ),
            decreases self@.nodes.len() - i,
        {
            let mut k: usize = 0;
            while k < self.branches[i].children.len()
                invariant
                    i < self@.nodes.len(),
                    k <= self@.nodes[i as int].children.len(),
                    forall|t: int|
                        0 <= t < k ==> child_edge(
                            self@.nodes,
                            i as int,
                            #[trigger] self@.nodes[i as int].children[t],
                        ),
                decreases self@.nodes[i as int].children.len() - k,
            {
                if !self.child_edge_exec(i, &self.branches[i].children[k]) {
                    proof {
                        assert(!self@.children_sound()) by {
                            assert(0 <= k < self@.nodes[i as int].children.len() && !child_edge(
                                self@.nodes,
                                i as int,
                                self@.nodes[i as int].children[k as int],
                            ));
                        }
                    }
                    return false;
                }
                k += 1;
            }
            i += 1;
        }
        true
    }

    /// Whether every parent edge is mirrored in the parent's children list.
    fn children_complete_exec(&self) -> (r: bool)
        ensures
            r == self@.children_complete(),
    {
        let mut i: usize = 0;
        while i < self.branches.len()
            invariant
                i <= self@.nodes.len(),
                forall|a: int, b: int|
                    0 <= a < self@.nodes.len() && a < i && 1 <= b < self@.nodes.len() && (
                    #[trigger] self@.nodes[b]).parent == Some((#[trigger] self@.nodes[a]).name)
                        ==> self@.nodes[a].children.contains(self@.nodes[b].name),
            decreases self@.nodes.len() - i,
        {
            let mut j: usize = 1;
            while j < self.branches.len()
                invariant
                    1 <= j,
                    i < self@.nodes.len(),
                    forall|b: int|
                        1 <= b < j && (#[trigger] self@.nodes[b]).parent == Some(
                            self@.nodes[i as int].name,
                        ) ==> self@.nodes[i as int].children.contains(self@.nodes[b].name),
                decreases self@.nodes.len() - j,
            {
                let is_edge = match &self.branches[j].parent {
                    Some(p) => *p == self.branches[i].name,
                    None => false,
                };
                if is_edge {
                    if find_name_pos(&self.branches[i].children, &self.branches[j].name).is_none() {
                        proof {
                            assert(!self@.children_complete()) by {
                                assert(self@.nodes[j as int].parent == Some(
                                    self@.nodes[i as int].name,
                                ) && !self@.nodes[i as int].children.contains(
                                    self@.nodes[j as int].name,
                                ));
                            }
                        }
                        return false;
                    }
                }
                j += 1;
            }
            i += 1;
        }
        true
    }

    /// Whether no children list repeats a name.
    fn children_unique_exec(&self) -> (r: bool)
        ensures
            r == self@.children_unique(),
    {
        let mut i: usize = 0;
        while i < self.branches.len()
            invariant
                i <= self@.nodes.len(),
                forall|a: int, k1: int, k2: int|
                    0 <= a < self@.nodes.len() && a < i && 0 <= k1 < k2
                        < self@.nodes[a].children.len() ==> #[trigger] self@.nodes[a].children[k1]
                        != #[trigger] self@.nodes[a].children[k2],
            decreases self@.nodes.len() - i,
        {
            let children = &self.branches[i].children;
            let mut k1: usize = 0;
            while k1 < children.len()
                invariant
                    i < self@.nodes.len(),
                    children@ == self.branches@[i as int].children@,
                    k1 <= self@.nodes[i as int].children.len(),
                    forall|a: int, b: int|
                        0 <= a < b < self@.nodes[i as int].children.len() && a < k1
                            ==> #[trigger] self@.nodes[i as int].children[a]
                            != #[trigger] self@.nodes[i as int].children[b],
                decreases self@.nodes[i as int].children.len() - k1,
            {
                let mut k2: usize = k1 + 1;
                while k2 < children.len()
                    invariant
                        i < self@.nodes.len(),
                        children@ == self.branches@[i as int].children@,
                        k1 < k2 <= self@.nodes[i as int].children.len() || k2 == k1 + 1,
                        k1 < self@.nodes[i as int].children.len(),
                        forall|b: int|
                            k1 < b < k2 ==> #[trigger] self@.nodes[i as int].children[k1 as int]
                                != #[trigger] self@.nodes[i as int].children[b],
                    decreases self@.nodes[i as int].children.len() - k2,
                {
                    if children[k1] == children[k2] {
                        proof {
                            assert(!self@.children_unique()) by {
                                assert(self@.nodes[i as int].children[k1 as int]
                                    == self@.nodes[i as int].children[k2 as int]);
                            }
                        }
                        return false;
                    }
                    k2 += 1;
                }
                k1 += 1;
            }
            i += 1;
        }
        true
    }

    /// Checks the tree invariants on this very value — meant for a tree
    /// loaded from storage, whose shape nothing has verified yet: only a
    /// tree that passes may be handed to the operations that require a
    /// well-formed one.
    pub fn check_wf(&self) -> (r: bool)
        ensures
            r == self.wf(),
    {
        self.trunk_is_root_exec() && self.names_unique_exec() && self.parents_resolve_exec()
            && self.children_sound_exec() && self.children_complete_exec()
            && self.children_unique_exec()
    }
}

/// When names are not repeated, `idx_of` is the one index whose node
/// carries the name.
pub proof fn lemma_idx_of_unique(nodes: Seq<BranchView>, n: Seq<char>, i: int)
    requires
        0 <= i < nodes.len(),
        nodes[i].name == n,
        forall|a: int, b: int| 0 <= a < b < nodes.len() ==> nodes[a].name != nodes[b].name,
    ensures
        idx_of(nodes, n) == i,
        has_name(nodes, n),
{
    assert(has_name(nodes, n));
    let j = idx_of(nodes, n);
    assert(0 <= j < nodes.len() && nodes[j].name == n);
    if j < i {
        assert(nodes[j].name != nodes[i].name);
    } else if i < j {
        assert(nodes[i].name != nodes[j].name);
    }
}

} // verus!
