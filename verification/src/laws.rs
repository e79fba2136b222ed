//! The laws tying the generator to the runtime: within a generated
//! snapshot, every subtree of the source forest occupies one contiguous
//! window of the table and blob, resolution against the table agrees with
//! resolution against the source tree itself — same handles on success,
//! same error kinds on failure — and every resolved file's content reads
//! back as the original source bytes.

use vstd::prelude::*;

use crate::gen::child_bases;
use crate::gen::dir_entry;
use crate::gen::file_entry;
use crate::gen::flat_blob;
use crate::gen::flat_entries;
use crate::gen::forest_blob;
use crate::gen::forest_entries;
use crate::gen::forest_rt_ok;
use crate::gen::lemma_flat_entries_len;
use crate::gen::lemma_forest_entries_len;
use crate::gen::lemma_stored_le;
use crate::gen::node_rt_ok;
use crate::gen::should_compress;
use crate::gen::stored_of;
use crate::model::FsError;
use crate::model::SpecFs;
use crate::tree::forest_count;
use crate::tree::forest_find;
use crate::tree::lemma_forest_count_snoc;
use crate::tree::lemma_node_count_pos;
use crate::tree::node_count;
use crate::tree::tree_resolve;
use crate::tree::TreeNode;
use crate::rt::find_named;
use crate::rt::resolve_from;

verus! {

/// One subtree's serialized form occupies the table rows `[b, b+count)`
/// and the blob bytes `[o, o+len)` of `fs`.
pub open spec fn entries_window(fs: SpecFs, t: TreeNode, b: int, o: int, on: bool) -> bool {
    &&& 0 <= b
    &&& b + node_count(t) <= fs.entries.len()
    &&& 0 <= o
    &&& o + flat_blob(t, on).len() <= fs.blob.len()
    &&& fs.entries.subrange(b, b + node_count(t)) == flat_entries(t, b, o, on)
    &&& fs.blob.subrange(o, o + flat_blob(t, on).len() as int) == flat_blob(t, on)
}

/// A forest's serialized form occupies the rows `[b, b+count)` and blob
/// bytes `[o, o+len)` of `fs`.
pub open spec fn forest_window(fs: SpecFs, ts: Seq<TreeNode>, b: int, o: int, on: bool) -> bool {
    &&& 0 <= b
    &&& b + forest_count(ts) <= fs.entries.len()
    &&& 0 <= o
    &&& o + forest_blob(ts, on).len() <= fs.blob.len()
    &&& fs.entries.subrange(b, b + forest_count(ts)) == forest_entries(ts, b, o, on)
    &&& fs.blob.subrange(o, o + forest_blob(ts, on).len() as int) == forest_blob(ts, on)
}

/// The first row of a subtree's window is the subtree root's own row.
pub proof fn lemma_window_first_row(fs: SpecFs, t: TreeNode, b: int, o: int, on: bool)
    requires
        entries_window(fs, t, b, o, on),
    ensures
        fs.entries[b] == match t {
            TreeNode::File { name, data } => file_entry(name, data, o, on),
            TreeNode::Dir { name, children } => dir_entry(name, children, b),
        },
{
    lemma_node_count_pos(t);
    assert(fs.entries.subrange(b, b + node_count(t))[0] == fs.entries[b]);
    match t {
        TreeNode::File { name, data } => {
            assert(flat_entries(t, b, o, on)[0] == file_entry(name, data, o, on));
        },
        TreeNode::Dir { name, children } => {
            assert(flat_entries(t, b, o, on)[0] == dir_entry(name, children, b));
        },
    }
}

/// A directory's window contains a forest window for its children, right
/// after its own row.
pub proof fn lemma_dir_children_window(
    fs: SpecFs,
    name: Seq<u8>,
    children: Seq<TreeNode>,
    b: int,
    o: int,
    on: bool,
)
    requires
        entries_window(fs, TreeNode::Dir { name, children }, b, o, on),
    ensures
        forest_window(fs, children, b + 1, o, on),
{
    let t = TreeNode::Dir { name, children };
    lemma_forest_entries_len(children, b + 1, o, on);
    assert(node_count(t) == 1 + forest_count(children));
    assert(flat_blob(t, on) == forest_blob(children, on));
    assert forall|k: int| 0 <= k < forest_count(children) implies (#[trigger] fs.entries.subrange(
        b + 1,
        b + 1 + forest_count(children),
    )[k]) == forest_entries(children, b + 1, o, on)[k] by {
        assert(fs.entries.subrange(b, b + node_count(t))[k + 1] == fs.entries[b + 1 + k]);
        assert(flat_entries(t, b, o, on)[k + 1] == forest_entries(children, b + 1, o, on)[k]);
    }
    assert(fs.entries.subrange(b + 1, b + 1 + forest_count(children)) =~= forest_entries(
        children,
        b + 1,
        o,
        on,
    ));
}

/// Peeling the first sibling off a forest window: the first subtree has its
/// own window, and the remaining siblings theirs.
pub proof fn lemma_forest_window_peel(fs: SpecFs, ts: Seq<TreeNode>, b: int, o: int, on: bool)
    requires
        forest_window(fs, ts, b, o, on),
        ts.len() > 0,
    ensures
        entries_window(fs, ts[0], b, o, on),
        forest_window(
            fs,
            ts.drop_first(),
            b + node_count(ts[0]),
            o + flat_blob(ts[0], on).len(),
            on,
        ),
{
    let tail = ts.drop_first();
    let c0 = node_count(ts[0]) as int;
    let l0 = flat_blob(ts[0], on).len() as int;
    lemma_flat_entries_len(ts[0], b, o, on);
    lemma_forest_entries_len(ts, b, o, on);
    lemma_forest_entries_len(tail, b + c0, o + l0, on);
    assert(forest_entries(ts, b, o, on) == flat_entries(ts[0], b, o, on) + forest_entries(
        tail,
        b + c0,
        o + l0,
        on,
    ));
    assert(forest_blob(ts, on) == flat_blob(ts[0], on) + forest_blob(tail, on));
    assert forall|k: int| 0 <= k < c0 implies (#[trigger] fs.entries.subrange(b, b + c0)[k])
        == flat_entries(ts[0], b, o, on)[k] by {
        assert(fs.entries.subrange(b, b + forest_count(ts))[k] == fs.entries[b + k]);
    }
    assert(fs.entries.subrange(b, b + c0) =~= flat_entries(ts[0], b, o, on));
    assert forall|k: int| 0 <= k < l0 implies (#[trigger] fs.blob.subrange(o, o + l0)[k])
        == flat_blob(ts[0], on)[k] by {
        assert(fs.blob.subrange(o, o + forest_blob(ts, on).len() as int)[k] == fs.blob[o + k]);
    }
    assert(fs.blob.subrange(o, o + l0) =~= flat_blob(ts[0], on));
    assert forall|k: int| 0 <= k < forest_count(tail) implies (#[trigger] fs.entries.subrange(
        b + c0,
        b + c0 + forest_count(tail),
    )[k]) == forest_entries(tail, b + c0, o + l0, on)[k] by {
        assert(fs.entries.subrange(b, b + forest_count(ts))[c0 + k] == fs.entries[b + c0 + k]);
        assert(forest_entries(ts, b, o, on)[c0 + k] == forest_entries(tail, b + c0, o + l0, on)[k]);
    }
    assert(fs.entries.subrange(b + c0, b + c0 + forest_count(tail)) =~= forest_entries(
        tail,
        b + c0,
        o + l0,
        on,
    ));
    assert forall|k: int| 0 <= k < forest_blob(tail, on).len() implies (#[trigger] fs.blob.subrange(
        o + l0,
        o + l0 + forest_blob(tail, on).len() as int,
    )[k]) == forest_blob(tail, on)[k] by {
        assert(fs.blob.subrange(o, o + forest_blob(ts, on).len() as int)[l0 + k] == fs.blob[o + l0
            + k]);
        assert(forest_blob(ts, on)[l0 + k] == forest_blob(tail, on)[k]);
    }
    assert(fs.blob.subrange(o + l0, o + l0 + forest_blob(tail, on).len() as int) =~= forest_blob(
        tail,
        on,
    ));
}

/// Looking a name up among a directory's serialized children agrees with
/// looking it up among the source siblings: the same hit (as the sibling's
/// assigned handle) or the same miss.
pub proof fn lemma_find_correspond(
    fs: SpecFs,
    ts: Seq<TreeNode>,
    b: int,
    o: int,
    on: bool,
    name: Seq<u8>,
)
    requires
        forest_window(fs, ts, b, o, on),
    ensures
        match forest_find(ts, name) {
            Some(j) => 0 <= j < ts.len() && find_named(fs, child_bases(ts, b), name) == Some(
                child_bases(ts, b)[j],
            ),
            None => find_named(fs, child_bases(ts, b), name) is None,
        },
    decreases ts.len(),
{
    if ts.len() > 0 {
        let kids = child_bases(ts, b);
        let tail = ts.drop_first();
        let c0 = node_count(ts[0]) as int;
        let l0 = flat_blob(ts[0], on).len() as int;
        lemma_forest_window_peel(fs, ts, b, o, on);
        lemma_window_first_row(fs, ts[0], b, o, on);
        assert(kids == seq![b] + child_bases(tail, b + c0));
        assert(kids[0] == b);
        assert(fs.entries[b].name == ts[0].name());
        if ts[0].name() == name {
            assert(forest_find(ts, name) == Some(0int));
            assert(find_named(fs, kids, name) == Some(b));
        } else {
            lemma_find_correspond(fs, tail, b + c0, o + l0, on, name);
            lemma_child_bases_len(tail, b + c0);
            assert(kids.drop_first() =~= child_bases(tail, b + c0));
            match forest_find(tail, name) {
                Some(j) => {
                    assert(forest_find(ts, name) == Some(j + 1));
                    assert(find_named(fs, kids, name) == find_named(fs, kids.drop_first(), name));
                    assert(kids[j + 1] == child_bases(tail, b + c0)[j]);
                },
                None => {},
            }
        }
    }
}

/// What it means for the table row at `i` to present the source node
/// `node`: same kind, same name, same size, and — for a file — a logical
/// content that reads back as exactly the source bytes.
pub open spec fn entry_matches(fs: SpecFs, i: int, node: TreeNode) -> bool {
    match node {
        TreeNode::File { name, data } => {
            &&& !fs.entries[i].is_dir
            &&& fs.entries[i].name == name
            &&& fs.entries[i].size == data.len()
            &&& fs.entry_content(i) == Some(data)
        },
        TreeNode::Dir { name, children } => {
            &&& fs.entries[i].is_dir
            &&& fs.entries[i].name == name
            &&& fs.entries[i].size == children.len()
        },
    }
}

/// Resolution against a subtree's window of the table agrees with
/// resolution against the subtree itself: the same error kinds on failure,
/// and on success a row that presents the resolved node — its file content
/// included, which is where the compression round trip is used.
pub proof fn lemma_window_resolve(
    fs: SpecFs,
    t: TreeNode,
    b: int,
    o: int,
    on: bool,
    segs: Seq<Seq<u8>>,
)
    requires
        entries_window(fs, t, b, o, on),
        on ==> node_rt_ok(t),
    ensures
        match tree_resolve(t, segs) {
            Ok(node) => resolve_from(fs, b, segs) matches Ok(i) && entry_matches(fs, i, node),
            Err(e) => resolve_from(fs, b, segs) == Err::<int, FsError>(e),
        },
    decreases segs.len(),
{
    lemma_window_first_row(fs, t, b, o, on);
    match t {
        TreeNode::File { name, data } => {
            let e = file_entry(name, data, o, on);
            if segs.len() == 0 {
                lemma_stored_le(data, on);
                assert(fs.stored_bytes(b) == fs.blob.subrange(
                    o,
                    o + stored_of(data, on).len() as int,
                ));
                assert(flat_blob(t, on) == stored_of(data, on));
                assert(fs.stored_bytes(b) == stored_of(data, on));
                if should_compress(data, on) {
                    assert(on);
                    assert(crate::zlib::decode_of(stored_of(data, on)) == Some(data));
                    assert(fs.entry_content(b) == Some(data));
                } else {
                    assert(fs.entry_content(b) == Some(data));
                }
            } else {
                assert(!e.is_dir);
                assert(resolve_from(fs, b, segs) == Err::<int, FsError>(FsError::NotADirectory));
            }
        },
        TreeNode::Dir { name, children } => {
            if segs.len() == 0 {
                assert(fs.entries[b].size == children.len()) by {
                    lemma_child_bases_len(children, b + 1);
                }
            } else {
                lemma_dir_children_window(fs, name, children, b, o, on);
                lemma_find_correspond(fs, children, b + 1, o, on, segs[0]);
                assert(fs.entries[b].children == child_bases(children, b + 1));
                match forest_find(children, segs[0]) {
                    None => {
                        assert(resolve_from(fs, b, segs) == Err::<int, FsError>(FsError::NotFound));
                        assert(tree_resolve(t, segs) == Err::<TreeNode, FsError>(FsError::NotFound));
                    },
                    Some(j) => {
                        let cb = child_bases(children, b + 1);
                        lemma_child_window(fs, children, b + 1, o, on, j);
                        lemma_rt_member(children, j, on);
                        lemma_window_resolve(
                            fs,
                            children[j],
                            cb[j],
                            o + forest_blob(children.take(j), on).len(),
                            on,
                            segs.drop_first(),
                        );
                        assert(resolve_from(fs, b, segs) == resolve_from(
                            fs,
                            cb[j],
                            segs.drop_first(),
                        ));
                        assert(tree_resolve(t, segs) == tree_resolve(
                            children[j],
                            segs.drop_first(),
                        ));
                    },
                }
            }
        },
    }
}

/// A forest window contains each sibling's own window, at its assigned
/// handle and blob offset.
pub proof fn lemma_child_window(fs: SpecFs, ts: Seq<TreeNode>, b: int, o: int, on: bool, j: int)
    requires
        forest_window(fs, ts, b, o, on),
        0 <= j < ts.len(),
    ensures
        child_bases(ts, b)[j] == b + forest_count(ts.take(j)),
        entries_window(fs, ts[j], child_bases(ts, b)[j], o + forest_blob(ts.take(j), on).len(), on),
    decreases j,
{
    let tail = ts.drop_first();
    let c0 = node_count(ts[0]) as int;
    let l0 = flat_blob(ts[0], on).len() as int;
    lemma_forest_window_peel(fs, ts, b, o, on);
    assert(child_bases(ts, b) == seq![b] + child_bases(tail, b + c0));
    if j == 0 {
        assert(ts.take(0) =~= Seq::<TreeNode>::empty());
        assert(child_bases(ts, b)[0] == b);
    } else {
        lemma_child_window(fs, tail, b + c0, o + l0, on, j - 1);
        lemma_child_bases_len(tail, b + c0);
        assert(child_bases(ts, b)[j] == child_bases(tail, b + c0)[j - 1]);
        assert(ts.take(j).drop_first() =~= tail.take(j - 1));
        assert(ts.take(j)[0] == ts[0]);
        assert(forest_count(ts.take(j)) == node_count(ts[0]) + forest_count(tail.take(j - 1)));
        assert(forest_blob(ts.take(j), on) == flat_blob(ts[0], on) + forest_blob(
            tail.take(j - 1),
            on,
        ));
        assert(tail[j - 1] == ts[j]);
    }
}

/// A forest has one assigned handle per sibling.
pub proof fn lemma_child_bases_len(ts: Seq<TreeNode>, b: int)
    ensures
        child_bases(ts, b).len() == ts.len(),
    decreases ts.len(),
{
    if ts.len() > 0 {
        lemma_child_bases_len(ts.drop_first(), b + node_count(ts[0]));
    }
}

/// The serialized children of a directory: their handles point just above
/// the directory, their rows bear the source siblings' names, in the same
/// (sorted) order.
proof fn lemma_children_clauses(fs: SpecFs, ts: Seq<TreeNode>, b: int, o: int, on: bool)
    requires
        forest_window(fs, ts, b, o, on),
    ensures
        forall|j: int|
            0 <= j < ts.len() ==> b <= #[trigger] child_bases(ts, b)[j] && child_bases(ts, b)[j]
                + node_count(ts[j]) <= b + forest_count(ts),
        forall|j: int|
            0 <= j < ts.len() ==> fs.entries[#[trigger] child_bases(ts, b)[j]].name
                == ts[j].name(),
{
    lemma_child_bases_len(ts, b);
    assert forall|j: int| 0 <= j < ts.len() implies b <= #[trigger] child_bases(ts, b)[j]
        && child_bases(ts, b)[j] + node_count(ts[j]) <= b + forest_count(ts) && fs.entries[
        child_bases(ts, b)[j]
    ].name == ts[j].name() by {
        lemma_child_window(fs, ts, b, o, on, j);
        lemma_window_first_row(
            fs,
            ts[j],
            child_bases(ts, b)[j],
            o + forest_blob(ts.take(j), on).len(),
            on,
        );
        lemma_forest_count_snoc(ts, j);
        crate::gen::lemma_prefix_count_le(ts, j + 1);
        match ts[j] {
            TreeNode::File { .. } => {},
            TreeNode::Dir { .. } => {},
        }
    }
}

/// Every row of a well-formed subtree's window is locally valid and bears
/// a usable name.
proof fn lemma_window_rows_ok(fs: SpecFs, t: TreeNode, b: int, o: int, on: bool)
    requires
        crate::tree::tree_wf(t),
        entries_window(fs, t, b, o, on),
        fs.entries.len() <= u32::MAX,
    ensures
        forall|k: int|
            b <= k < b + node_count(t) ==> fs.entry_ok(k) && crate::model::valid_name(
                (#[trigger] fs.entries[k]).name,
            ),
    decreases node_count(t), 0int,
{
    lemma_window_first_row(fs, t, b, o, on);
    match t {
        TreeNode::File { name, data } => {
            lemma_stored_le(data, on);
            assert(fs.entries[b].children =~= Seq::<int>::empty());
            assert(fs.entry_ok(b));
        },
        TreeNode::Dir { name, children } => {
            lemma_dir_children_window(fs, name, children, b, o, on);
            lemma_children_clauses(fs, children, b + 1, o, on);
            lemma_child_bases_len(children, b + 1);
            crate::tree::lemma_forest_count_lower(children);
            assert(fs.entry_ok(b)) by {
                let e = fs.entries[b];
                assert(e.children == child_bases(children, b + 1));
                assert forall|j: int| 0 <= j < e.children.len() implies b < #[trigger] e.children[j]
                    < fs.entries.len() by {
                    lemma_node_count_pos(children[j]);
                }
                assert forall|j1: int, j2: int| 0 <= j1 < j2 < e.children.len() implies
                    crate::bytes::lex_lt(
                    fs.entries[#[trigger] e.children[j1]].name,
                    fs.entries[#[trigger] e.children[j2]].name,
                ) by {}
            }
            lemma_forest_rows_ok(fs, children, b + 1, o, on);
            assert forall|k: int| b <= k < b + node_count(t) implies fs.entry_ok(k)
                && crate::model::valid_name((#[trigger] fs.entries[k]).name) by {
                if k > b {
                    assert(b + 1 <= k < b + 1 + forest_count(children));
                }
            }
        },
    }
}

/// Every row of a well-formed forest's window is locally valid and bears a
/// usable name.
proof fn lemma_forest_rows_ok(fs: SpecFs, ts: Seq<TreeNode>, b: int, o: int, on: bool)
    requires
        crate::tree::forest_wf(ts),
        forest_window(fs, ts, b, o, on),
        fs.entries.len() <= u32::MAX,
    ensures
        forall|k: int|
            b <= k < b + forest_count(ts) ==> fs.entry_ok(k) && crate::model::valid_name(
                (#[trigger] fs.entries[k]).name,
            ),
    decreases forest_count(ts), 1int,
{
    if ts.len() > 0 {
        let c0 = node_count(ts[0]) as int;
        let l0 = flat_blob(ts[0], on).len() as int;
        lemma_forest_window_peel(fs, ts, b, o, on);
        lemma_window_rows_ok(fs, ts[0], b, o, on);
        lemma_node_count_pos(ts[0]);
        lemma_forest_rows_ok(fs, ts.drop_first(), b + c0, o + l0, on);
        assert forall|k: int| b <= k < b + forest_count(ts) implies fs.entry_ok(k)
            && crate::model::valid_name((#[trigger] fs.entries[k]).name) by {
            if k >= b + c0 {
                assert(b + c0 <= k < b + c0 + forest_count(ts.drop_first()));
            }
        }
    }
}

/// Law: a snapshot generated from a well-formed, sorted source forest that
/// fits the 32-bit layout is well-formed — every runtime operation's
/// precondition holds of it.
pub proof fn lemma_generate_wf(ts: Seq<TreeNode>, id: Seq<u8>, options: u32)
    requires
        crate::tree::forest_wf(ts),
        crate::tree::forest_sorted(ts),
        forest_count(ts) < u32::MAX,
        crate::tree::forest_data(ts) <= u32::MAX,
    ensures
        crate::gen::spec_generate(ts, id, options).wf(),
{
    let on = crate::gen::opt_compress_on(options);
    let fs = crate::gen::spec_generate(ts, id, options);
    let rootnode = TreeNode::Dir { name: Seq::<u8>::empty(), children: ts };
    lemma_forest_entries_len(ts, 1, 0, on);
    crate::gen::lemma_forest_blob_le_data(ts, on);
    lemma_child_bases_len(ts, 1);
    assert(fs.entries.len() == 1 + forest_count(ts));
    assert(fs.entries[0] == crate::gen::root_entry(ts));
    assert(fs.entries.subrange(1, 1 + forest_count(ts) as int) =~= forest_entries(ts, 1, 0, on));
    assert(fs.blob.subrange(0, forest_blob(ts, on).len() as int) =~= forest_blob(ts, on));
    assert(forest_window(fs, ts, 1, 0, on));
    lemma_forest_rows_ok(fs, ts, 1, 0, on);
    lemma_children_clauses(fs, ts, 1, 0, on);
    crate::tree::lemma_forest_count_lower(ts);
    assert(fs.entry_ok(0)) by {
        let e = fs.entries[0];
        assert(e.children == child_bases(ts, 1));
        assert forall|j: int| 0 <= j < e.children.len() implies 0 < #[trigger] e.children[j]
            < fs.entries.len() by {
            lemma_node_count_pos(ts[j]);
        }
        assert forall|j1: int, j2: int| 0 <= j1 < j2 < e.children.len() implies
            crate::bytes::lex_lt(
            fs.entries[#[trigger] e.children[j1]].name,
            fs.entries[#[trigger] e.children[j2]].name,
        ) by {}
    }
    assert forall|i: int| 0 <= i < fs.entries.len() implies fs.entry_ok(i) by {
        if i > 0 {
            assert(1 <= i < 1 + forest_count(ts));
        }
    }
}

/// Law: for every path, resolution against a generated snapshot agrees
/// with resolution against the source forest itself — the same error kinds
/// on failure, and on success a row presenting the resolved node, whose
/// file content reads back as the original source bytes. The round-trip
/// hypothesis is the compression primitive's contract, which generation
/// with compression enabled establishes for every file it compressed.
pub proof fn lemma_generate_resolve(
    ts: Seq<TreeNode>,
    id: Seq<u8>,
    options: u32,
    segs: Seq<Seq<u8>>,
)
    requires
        crate::gen::opt_compress_on(options) ==> forest_rt_ok(ts),
    ensures
        ({
            let fs = crate::gen::spec_generate(ts, id, options);
            let rootnode = TreeNode::Dir { name: Seq::<u8>::empty(), children: ts };
            match tree_resolve(rootnode, segs) {
                Ok(node) => resolve_from(fs, 0, segs) matches Ok(i) && entry_matches(fs, i, node),
                Err(e) => resolve_from(fs, 0, segs) == Err::<int, FsError>(e),
            }
        }),
{
    let on = crate::gen::opt_compress_on(options);
    let fs = crate::gen::spec_generate(ts, id, options);
    let rootnode = TreeNode::Dir { name: Seq::<u8>::empty(), children: ts };
    lemma_forest_entries_len(ts, 1, 0, on);
    assert(crate::gen::root_entry(ts) == dir_entry(Seq::<u8>::empty(), ts, 0));
    assert(fs.entries =~= flat_entries(rootnode, 0, 0, on));
    assert(fs.entries.subrange(0, node_count(rootnode) as int) =~= flat_entries(
        rootnode,
        0,
        0,
        on,
    ));
    assert(fs.blob.subrange(0, flat_blob(rootnode, on).len() as int) =~= flat_blob(rootnode, on));
    assert(entries_window(fs, rootnode, 0, 0, on));
    lemma_window_resolve(fs, rootnode, 0, 0, on, segs);
}

/// Law: generation is a function of the source forest, identifier and
/// options alone, so regenerating from an unchanged source under the same
/// identifier and options yields an identical artifact.
pub proof fn lemma_generate_idempotent(
    fs1: SpecFs,
    fs2: SpecFs,
    ts: Seq<TreeNode>,
    id: Seq<u8>,
    options: u32,
)
    requires
        fs1 == crate::gen::spec_generate(ts, id, options),
        fs2 == crate::gen::spec_generate(ts, id, options),
    ensures
        fs1 == fs2,
{
}

/// The round-trip fact for a forest passes to each member.
pub proof fn lemma_rt_member(ts: Seq<TreeNode>, j: int, on: bool)
    requires
        0 <= j < ts.len(),
        on ==> forest_rt_ok(ts),
    ensures
        on ==> node_rt_ok(ts[j]),
    decreases j,
{
    if on {
        if j == 0 {
        } else {
            lemma_rt_member(ts.drop_first(), j - 1, on);
        }
    }
}

} // verus!
