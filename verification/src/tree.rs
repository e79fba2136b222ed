//! The generator's input: an in-memory picture of the source directory tree.
//!
//! The caller walks the live directory (that part is plain I/O and stays
//! outside this library), hands every file's bytes over as a [`SrcNode`]
//! forest, and keeps each directory's children sorted by name — the
//! deterministic order that makes regeneration reproducible. [`forest_check`]
//! decides, exactly, whether a forest meets the generator's preconditions,
//! and [`sort_children`] puts one directory level into order.

use vstd::prelude::*;

use crate::bytes::lemma_lex_total;
use crate::bytes::lemma_lex_trans;
use crate::bytes::lex_le;
use crate::bytes::lex_lt;
use crate::bytes::name_cmp;
use crate::bytes::NameOrd;
use crate::model::valid_name;
use crate::model::FsError;
use crate::model::SEP;

verus! {

/// One node of the source tree: a file with its full contents, or a
/// directory with its children.
pub enum SrcNode {
    File { name: Vec<u8>, data: Vec<u8> },
    Dir { name: Vec<u8>, children: Vec<SrcNode> },
}

/// Mathematical model of one source-tree node.
pub enum TreeNode {
    File { name: Seq<u8>, data: Seq<u8> },
    Dir { name: Seq<u8>, children: Seq<TreeNode> },
}

impl TreeNode {
    /// The node's name.
    pub open spec fn name(self) -> Seq<u8> {
        match self {
            TreeNode::File { name, .. } => name,
            TreeNode::Dir { name, .. } => name,
        }
    }

    /// Whether the node is a directory.
    pub open spec fn is_dir(self) -> bool {
        self is Dir
    }
}

/// The model of one node.
pub open spec fn node_view(n: SrcNode) -> TreeNode
    decreases n,
{
    match n {
        SrcNode::File { name, data } => TreeNode::File { name: name@, data: data@ },
        SrcNode::Dir { name, children } => TreeNode::Dir {
            name: name@,
            children: forest_view(children@),
        },
    }
}

/// The model of a sequence of sibling nodes.
pub open spec fn forest_view(s: Seq<SrcNode>) -> Seq<TreeNode>
    decreases s,
{
    if s.len() == 0 {
        Seq::empty()
    } else {
        seq![node_view(s[0])] + forest_view(s.drop_first())
    }
}

impl View for SrcNode {
    type V = TreeNode;

    open spec fn view(&self) -> TreeNode {
        node_view(*self)
    }
}

/// A forest's model has one node per source node, in order.
pub proof fn lemma_forest_view(s: Seq<SrcNode>)
    ensures
        forest_view(s).len() == s.len(),
        forall|j: int| 0 <= j < s.len() ==> forest_view(s)[j] == node_view(s[j]),
    decreases s.len(),
{
    if s.len() > 0 {
        lemma_forest_view(s.drop_first());
    }
}

/// Number of entries a node occupies in the metadata table: itself and, for a
/// directory, everything below it.
pub open spec fn node_count(t: TreeNode) -> nat
    decreases t,
{
    match t {
        TreeNode::File { .. } => 1,
        TreeNode::Dir { children, .. } => 1 + forest_count(children),
    }
}

/// Total table entries of a forest.
pub open spec fn forest_count(ts: Seq<TreeNode>) -> nat
    decreases ts,
{
    if ts.len() == 0 {
        0
    } else {
        node_count(ts[0]) + forest_count(ts.drop_first())
    }
}

/// Total raw (uncompressed) file bytes below a node.
pub open spec fn node_data(t: TreeNode) -> nat
    decreases t,
{
    match t {
        TreeNode::File { data, .. } => data.len(),
        TreeNode::Dir { children, .. } => forest_data(children),
    }
}

/// Total raw file bytes of a forest.
pub open spec fn forest_data(ts: Seq<TreeNode>) -> nat
    decreases ts,
{
    if ts.len() == 0 {
        0
    } else {
        node_data(ts[0]) + forest_data(ts.drop_first())
    }
}

/// Siblings stand in strictly increasing name order (so names are pairwise
/// distinct).
pub open spec fn forest_sorted(ts: Seq<TreeNode>) -> bool {
    forall|j1: int, j2: int|
        0 <= j1 < j2 < ts.len() ==> lex_lt((#[trigger] ts[j1]).name(), (#[trigger] ts[j2]).name())
}

/// Well-formedness of one node: a usable name, file sizes that fit the
/// 32-bit layout, and below every directory a sorted, well-formed forest.
pub open spec fn tree_wf(t: TreeNode) -> bool
    decreases t,
{
    match t {
        TreeNode::File { name, data } => valid_name(name) && data.len() <= u32::MAX,
        TreeNode::Dir { name, children } => valid_name(name) && forest_sorted(children)
            && forest_wf(children),
    }
}

/// Well-formedness of every node of a forest.
pub open spec fn forest_wf(ts: Seq<TreeNode>) -> bool
    decreases ts,
{
    if ts.len() == 0 {
        true
    } else {
        tree_wf(ts[0]) && forest_wf(ts.drop_first())
    }
}

/// A forest is well-formed exactly when each of its nodes is.
pub proof fn lemma_forest_wf_index(ts: Seq<TreeNode>)
    ensures
        forest_wf(ts) <==> (forall|j: int| 0 <= j < ts.len() ==> tree_wf(#[trigger] ts[j])),
    decreases ts.len(),
{
    if ts.len() > 0 {
        let tail = ts.drop_first();
        lemma_forest_wf_index(tail);
        assert forall|k: int| 0 <= k < tail.len() implies #[trigger] tail[k] == ts[k + 1] by {}
        if forest_wf(ts) {
            assert forall|j: int| 0 <= j < ts.len() implies tree_wf(#[trigger] ts[j]) by {
                if j > 0 {
                    assert(tree_wf(tail[j - 1]));
                }
            }
        }
        if forall|j: int| 0 <= j < ts.len() ==> tree_wf(#[trigger] ts[j]) {
            assert forall|k: int| 0 <= k < tail.len() implies tree_wf(#[trigger] tail[k]) by {
                assert(tree_wf(ts[k + 1]));
            }
            assert(forest_wf(tail));
        }
    }
}

/// Every node occupies at least one table entry.
pub proof fn lemma_node_count_pos(t: TreeNode)
    ensures
        node_count(t) >= 1,
{
    match t {
        TreeNode::File { .. } => {},
        TreeNode::Dir { .. } => {},
    }
}

/// Every node occupies at least one table entry, and a forest at least one
/// per sibling.
pub proof fn lemma_forest_count_lower(ts: Seq<TreeNode>)
    ensures
        forest_count(ts) >= ts.len(),
    decreases ts.len(),
{
    if ts.len() > 0 {
        lemma_forest_count_lower(ts.drop_first());
        lemma_node_count_pos(ts[0]);
    }
}

/// Peeling one node off the front of a forest's counts.
pub proof fn lemma_forest_count_snoc(ts: Seq<TreeNode>, j: int)
    requires
        0 <= j < ts.len(),
    ensures
        forest_count(ts.take(j + 1)) == forest_count(ts.take(j)) + node_count(ts[j]),
        forest_data(ts.take(j + 1)) == forest_data(ts.take(j)) + node_data(ts[j]),
    decreases j,
{
    if j == 0 {
        assert(ts.take(1) =~= seq![ts[0]]);
        assert(ts.take(1).drop_first() =~= Seq::<TreeNode>::empty());
        assert(ts.take(0) =~= Seq::<TreeNode>::empty());
    } else {
        lemma_forest_count_snoc(ts.drop_first(), j - 1);
        assert(ts.take(j + 1).drop_first() =~= ts.drop_first().take(j));
        assert(ts.take(j).drop_first() =~= ts.drop_first().take(j - 1));
        assert(ts.take(j + 1)[0] == ts[0]);
        assert(ts.take(j)[0] == ts[0]);
    }
}

/// A full take is the forest itself.
pub proof fn lemma_take_all<A>(s: Seq<A>)
    ensures
        s.take(s.len() as int) == s,
{
    assert(s.take(s.len() as int) =~= s);
}

/// Looking a name up among siblings: the index of the child so named.
pub open spec fn forest_find(ts: Seq<TreeNode>, name: Seq<u8>) -> Option<int>
    decreases ts.len(),
{
    if ts.len() == 0 {
        None
    } else if ts[0].name() == name {
        Some(0int)
    } else {
        match forest_find(ts.drop_first(), name) {
            Some(j) => Some(j + 1),
            None => None,
        }
    }
}

/// `forest_find` finds exactly the child bearing the name.
pub proof fn lemma_forest_find(ts: Seq<TreeNode>, name: Seq<u8>)
    ensures
        match forest_find(ts, name) {
            Some(j) => 0 <= j < ts.len() && ts[j].name() == name,
            None => forall|j: int| 0 <= j < ts.len() ==> (#[trigger] ts[j]).name() != name,
        },
    decreases ts.len(),
{
    if ts.len() > 0 && ts[0].name() != name {
        let tail = ts.drop_first();
        lemma_forest_find(tail, name);
        assert forall|k: int| 0 <= k < tail.len() implies #[trigger] tail[k] == ts[k + 1] by {}
        match forest_find(tail, name) {
            Some(j) => {
                assert(ts[j + 1].name() == name);
            },
            None => {
                assert forall|j: int| 0 <= j < ts.len() implies (#[trigger] ts[j]).name()
                    != name by {
                    if j > 0 {
                        assert(tail[j - 1].name() != name);
                    }
                }
            },
        }
    }
}

/// Resolving a path, segment by segment, against the source tree itself:
/// the node the path names, or the exact error. This is the reference that
/// resolution against a generated table is held to.
pub open spec fn tree_resolve(t: TreeNode, segs: Seq<Seq<u8>>) -> Result<TreeNode, FsError>
    decreases segs.len(),
{
    if segs.len() == 0 {
        Ok(t)
    } else {
        match t {
            TreeNode::File { .. } => Err(FsError::NotADirectory),
            TreeNode::Dir { children, .. } => match forest_find(children, segs[0]) {
                None => Err(FsError::NotFound),
                Some(j) => tree_resolve(children[j], segs.drop_first()),
            },
        }
    }
}

/// A resolved node bears the path's final segment as its name.
pub proof fn lemma_tree_resolve_name(t: TreeNode, segs: Seq<Seq<u8>>)
    requires
        segs.len() > 0,
        tree_resolve(t, segs) is Ok,
    ensures
        tree_resolve(t, segs)->Ok_0.name() == segs.last(),
    decreases segs.len(),
{
    match t {
        TreeNode::File { .. } => {},
        TreeNode::Dir { children, .. } => {
            let j = forest_find(children, segs[0])->Some_0;
            lemma_forest_find(children, segs[0]);
            if segs.len() == 1 {
                assert(tree_resolve(children[j], segs.drop_first()) == Ok::<
                    TreeNode,
                    FsError,
                >(children[j]));
            } else {
                lemma_tree_resolve_name(children[j], segs.drop_first());
                assert(segs.drop_first().last() == segs.last());
            }
        },
    }
}

/// The name of a node.
pub fn node_name(n: &SrcNode) -> (r: &Vec<u8>)
    ensures
        r@ == n@.name(),
{
    match n {
        SrcNode::File { name, .. } => name,
        SrcNode::Dir { name, .. } => name,
    }
}

/// Decides whether `name` is usable as an entry name.
pub fn check_name(name: &[u8]) -> (r: bool)
    ensures
        r == valid_name(name@),
{
    let n: usize = name.len();
    if n == 0 {
        return false;
    }
    let mut i: usize = 0;
    while i < n
        invariant
            i <= n,
            n == name@.len(),
            forall|k: int| 0 <= k < i ==> name@[k] != SEP,
        decreases n - i,
    {
        if name[i] == SEP {
            return false;
        }
        i = i + 1;
    }
    true
}

/// Checks one node against the generator's preconditions, and counts it.
/// Returns the node's table-entry count and raw data total, or `None` when
/// the node is not well-formed or a count leaves 32 bits.
pub fn node_check(n: &SrcNode) -> (r: Option<(u32, u32)>)
    ensures
        match r {
            Some(p) => tree_wf(n@) && p.0 == node_count(n@) && p.1 == node_data(n@),
            None => !(tree_wf(n@) && node_count(n@) <= u32::MAX && node_data(n@) <= u32::MAX),
        },
    decreases *n,
{
    match n {
        SrcNode::File { name, data } => {
            if !check_name(name.as_slice()) {
                return None;
            }
            if data.len() > u32::MAX as usize {
                return None;
            }
            Some((1, data.len() as u32))
        },
        SrcNode::Dir { name, children } => {
            if !check_name(name.as_slice()) {
                return None;
            }
            match forest_check_rec(children) {
                None => None,
                Some((c, d)) => {
                    if c == u32::MAX {
                        proof {
                            assert(node_count(n@) == 1 + forest_count(forest_view(children@)));
                        }
                        None
                    } else {
                        Some((c + 1, d))
                    }
                },
            }
        },
    }
}

/// Checks a forest of siblings: every node well-formed, names strictly
/// sorted, totals within 32 bits.
fn forest_check_rec(children: &Vec<SrcNode>) -> (r: Option<(u32, u32)>)
    ensures
        match r {
            Some(p) => {
                let ts = forest_view(children@);
                &&& forest_wf(ts)
                &&& forest_sorted(ts)
                &&& p.0 == forest_count(ts)
                &&& p.1 == forest_data(ts)
            },
            None => {
                let ts = forest_view(children@);
                !(forest_wf(ts) && forest_sorted(ts) && forest_count(ts) <= u32::MAX
                    && forest_data(ts) <= u32::MAX)
            },
        },
    decreases children@,
{
    let ghost ts = forest_view(children@);
    proof {
        lemma_forest_view(children@);
    }
    let n: usize = children.len();
    let mut count: u32 = 0;
    let mut data: u32 = 0;
    let mut i: usize = 0;
    while i < n
        invariant
            i <= n,
            n == children@.len(),
            ts == forest_view(children@),
            ts.len() == n,
            forall|j: int| 0 <= j < n ==> ts[j] == node_view(children@[j]),
            count == forest_count(ts.take(i as int)),
            data == forest_data(ts.take(i as int)),
            forall|j: int| 0 <= j < i ==> tree_wf(#[trigger] ts[j]),
            forall|j1: int, j2: int|
                0 <= j1 < j2 < i ==> lex_lt(
                    (#[trigger] ts[j1]).name(),
                    (#[trigger] ts[j2]).name(),
                ),
        decreases n - i,
    {
        proof {
            assert(decreases_to!(children@ => children@[i as int]));
        }
        let node = &children[i];
        if i > 0 {
            let prev = node_name(&children[i - 1]);
            let cur = node_name(node);
            if !matches!(name_cmp(prev.as_slice(), cur.as_slice()), NameOrd::Less) {
                proof {
                    assert(!lex_lt(ts[i - 1].name(), ts[i as int].name()));
                }
                return None;
            }
        }
        let checked = node_check(node);
        match checked {
            None => {
                proof {
                    if forest_wf(ts) {
                        lemma_forest_wf_index(ts);
                        assert(tree_wf(ts[i as int]));
                        lemma_count_data_member_bound(ts, i as int);
                    }
                }
                return None;
            },
            Some((c, d)) => {
                let new_count = count.checked_add(c);
                let new_data = data.checked_add(d);
                match (new_count, new_data) {
                    (Some(nc), Some(nd)) => {
                        proof {
                            lemma_forest_count_snoc(ts, i as int);
                            assert forall|j1: int, j2: int| 0 <= j1 < j2 < i + 1 implies lex_lt(
                                (#[trigger] ts[j1]).name(),
                                (#[trigger] ts[j2]).name(),
                            ) by {
                                if j2 == i && j1 < i - 1 {
                                    lemma_lex_trans(
                                        ts[j1].name(),
                                        ts[i - 1].name(),
                                        ts[i as int].name(),
                                    );
                                }
                            }
                        }
                        count = nc;
                        data = nd;
                        i = i + 1;
                    },
                    _ => {
                        proof {
                            lemma_forest_count_snoc(ts, i as int);
                            lemma_count_data_prefix_bound(ts, i + 1);
                        }
                        return None;
                    },
                }
            },
        }
    }
    proof {
        lemma_take_all(ts);
        lemma_forest_wf_index(ts);
    }
    Some((count, data))
}

/// Checks the forest that a whole snapshot is generated from.
pub fn forest_check(children: &Vec<SrcNode>) -> (r: Option<(u32, u32)>)
    ensures
        match r {
            Some(p) => {
                let ts = forest_view(children@);
                &&& forest_wf(ts)
                &&& forest_sorted(ts)
                &&& p.0 == forest_count(ts)
                &&& p.1 == forest_data(ts)
            },
            None => {
                let ts = forest_view(children@);
                !(forest_wf(ts) && forest_sorted(ts) && forest_count(ts) <= u32::MAX
                    && forest_data(ts) <= u32::MAX)
            },
        },
{
    forest_check_rec(children)
}

/// A member's counts are bounded by the forest's totals.
proof fn lemma_count_data_member_bound(ts: Seq<TreeNode>, j: int)
    requires
        0 <= j < ts.len(),
    ensures
        node_count(ts[j]) <= forest_count(ts),
        node_data(ts[j]) <= forest_data(ts),
    decreases ts.len(),
{
    if j == 0 {
        lemma_count_data_nonneg(ts.drop_first());
    } else {
        lemma_count_data_member_bound(ts.drop_first(), j - 1);
    }
}

/// Counts are never negative (they are naturals by construction).
proof fn lemma_count_data_nonneg(ts: Seq<TreeNode>)
    ensures
        forest_count(ts) >= 0,
        forest_data(ts) >= 0,
{
}

/// A prefix's counts are bounded by the forest's totals.
pub proof fn lemma_count_data_prefix_bound(ts: Seq<TreeNode>, i: int)
    requires
        0 <= i <= ts.len(),
    ensures
        forest_count(ts.take(i)) <= forest_count(ts),
        forest_data(ts.take(i)) <= forest_data(ts),
    decreases ts.len() - i,
{
    if i == ts.len() {
        lemma_take_all(ts);
    } else {
        lemma_forest_count_snoc(ts, i);
        lemma_count_data_prefix_bound(ts, i + 1);
    }
}

/// Sorts one directory level by name, moving the given nodes into a new
/// vector. The result holds exactly the given nodes, in non-decreasing name
/// order; names from a live directory are pairwise distinct, so the order is
/// then strict.
pub fn sort_children(v: Vec<SrcNode>) -> (r: Vec<SrcNode>)
    ensures
        r@.to_multiset() == v@.to_multiset(),
        r@.len() == v@.len(),
        forall|j1: int, j2: int|
            0 <= j1 < j2 < r@.len() ==> lex_le(
                node_view(#[trigger] r@[j1]).name(),
                node_view(#[trigger] r@[j2]).name(),
            ),
{
    broadcast use vstd::seq_lib::group_to_multiset_ensures;

    let mut rest = v;
    let ghost all = rest@.to_multiset();
    let mut out: Vec<SrcNode> = Vec::new();
    while rest.len() > 0
        invariant
            out@.to_multiset().add(rest@.to_multiset()) == all,
            all == v@.to_multiset(),
            out@.len() + rest@.len() == v@.len(),
            forall|j1: int, j2: int|
                0 <= j1 < j2 < out@.len() ==> lex_le(
                    node_view(#[trigger] out@[j1]).name(),
                    node_view(#[trigger] out@[j2]).name(),
                ),
            forall|a: int, b: int|
                0 <= a < out@.len() && 0 <= b < rest@.len() ==> lex_le(
                    node_view(#[trigger] out@[a]).name(),
                    node_view(#[trigger] rest@[b]).name(),
                ),
        decreases rest@.len(),
    {
        let n: usize = rest.len();
        let mut m: usize = 0;
        let mut k: usize = 1;
        while k < n
            invariant
                n == rest@.len(),
                m < k <= n,
                forall|j: int| 0 <= j < k ==> lex_le(
                    node_view(rest@[m as int]).name(),
                    node_view(#[trigger] rest@[j]).name(),
                ),
            decreases n - k,
        {
            let cand = node_name(&rest[k]);
            let best = node_name(&rest[m]);
            if matches!(name_cmp(cand.as_slice(), best.as_slice()), NameOrd::Less) {
                proof {
                    let nk = node_view(rest@[k as int]).name();
                    let nm = node_view(rest@[m as int]).name();
                    assert forall|j: int| 0 <= j < k + 1 implies lex_le(
                        nk,
                        node_view(#[trigger] rest@[j]).name(),
                    ) by {
                        let nj = node_view(rest@[j]).name();
                        if j < k {
                            if nm == nj {
                            } else {
                                lemma_lex_trans(nk, nm, nj);
                            }
                        }
                    }
                }
                m = k;
            } else {
                proof {
                    lemma_lex_total(
                        node_view(rest@[m as int]).name(),
                        node_view(rest@[k as int]).name(),
                    );
                }
            }
            k = k + 1;
        }
        let ghost old_rest = rest@;
        let ghost old_out = out@;
        let node = rest.remove(m);
        out.push(node);
        proof {
            let x = old_rest[m as int];
            old_rest.to_multiset_ensures();
            old_out.to_multiset_ensures();
            assert(old_rest.contains(x));
            assert(rest@ == old_rest.remove(m as int));
            assert(old_rest.remove(m as int).to_multiset() == old_rest.to_multiset().remove(x));
            assert(out@ == old_out.push(x));
            assert(old_out.push(x).to_multiset() == old_out.to_multiset().insert(x));
            assert(out@.to_multiset().add(rest@.to_multiset()) =~= all);
            assert forall|a: int, b: int|
                0 <= a < out@.len() && 0 <= b < rest@.len() implies lex_le(
                node_view(#[trigger] out@[a]).name(),
                node_view(#[trigger] rest@[b]).name(),
            ) by {
                assert(rest@[b] == if b < m { old_rest[b] } else { old_rest[b + 1] });
                if a < out@.len() - 1 {
                    assert(out@[a] == old_out[a]);
                }
            }
        }
    }
    out
}

} // verus!
