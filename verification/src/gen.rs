//! The generator: serializing a source forest into one snapshot.
//!
//! Entries are laid out in pre-order — a node's handle is its position in
//! that order, the root directory is handle 0 — and every file payload is
//! appended to one contiguous blob. Compression is decided per file: a
//! file is stored compressed only when compression is enabled and the
//! compressed form saves at least one twentieth of its size; otherwise the
//! raw bytes are stored, so reads never pay for decompression without a
//! size benefit. The whole layout is a function of the input alone, so
//! regenerating an unchanged tree yields an identical artifact.

use vstd::prelude::*;

use crate::bytes::append_bytes;
use crate::model::entries_view;
use crate::model::Entry;
use crate::model::ErfsRoot;
use crate::model::SpecEntry;
use crate::model::SpecFs;
use crate::model::FLAG_COMPRESSED;
use crate::model::FLAG_DIR;
use crate::model::OPT_COMPRESS;
use crate::tree::forest_count;
use crate::tree::forest_data;
use crate::tree::forest_sorted;
use crate::tree::forest_view;
use crate::tree::forest_wf;
use crate::tree::lemma_forest_count_snoc;
use crate::tree::lemma_forest_view;
use crate::tree::lemma_forest_wf_index;
use crate::tree::lemma_node_count_pos;
use crate::tree::lemma_take_all;
use crate::tree::node_count;
use crate::tree::node_data;
use crate::tree::tree_wf;
use crate::tree::SrcNode;
use crate::tree::TreeNode;
use crate::zlib::compress_bytes;
use crate::zlib::compress_of;
use crate::zlib::decode_of;

verus! {

/// Whether the given options enable per-file compression.
pub open spec fn opt_compress_on(options: u32) -> bool {
    options & OPT_COMPRESS != 0
}

/// The compression decision for one file's bytes: compression must be
/// enabled and the compressed form must save at least one twentieth.
pub open spec fn should_compress(data: Seq<u8>, on: bool) -> bool {
    on && 20 * compress_of(data).len() <= 19 * data.len()
}

/// The bytes stored in the blob for one file.
pub open spec fn stored_of(data: Seq<u8>, on: bool) -> Seq<u8> {
    if should_compress(data, on) {
        compress_of(data)
    } else {
        data
    }
}

/// A file never stores more bytes than its raw contents.
pub proof fn lemma_stored_le(data: Seq<u8>, on: bool)
    ensures
        stored_of(data, on).len() <= data.len(),
{
}

/// The table row of a file whose payload starts at `boff`.
pub open spec fn file_entry(name: Seq<u8>, data: Seq<u8>, boff: int, on: bool) -> SpecEntry {
    SpecEntry {
        is_dir: false,
        compressed: should_compress(data, on),
        name,
        size: data.len() as int,
        offset: boff,
        stored_len: stored_of(data, on).len() as int,
        children: Seq::empty(),
    }
}

/// The handles at which each sibling's subtree starts, the first at `base`.
pub open spec fn child_bases(ts: Seq<TreeNode>, base: int) -> Seq<int>
    decreases ts,
{
    if ts.len() == 0 {
        Seq::empty()
    } else {
        seq![base] + child_bases(ts.drop_first(), base + node_count(ts[0]))
    }
}

/// The table row of a directory whose own handle is `base`.
pub open spec fn dir_entry(name: Seq<u8>, children: Seq<TreeNode>, base: int) -> SpecEntry {
    SpecEntry {
        is_dir: true,
        compressed: false,
        name,
        size: children.len() as int,
        offset: 0,
        stored_len: 0,
        children: child_bases(children, base + 1),
    }
}

/// All payload bytes below one node, in pre-order.
pub open spec fn flat_blob(t: TreeNode, on: bool) -> Seq<u8>
    decreases t,
{
    match t {
        TreeNode::File { data, .. } => stored_of(data, on),
        TreeNode::Dir { children, .. } => forest_blob(children, on),
    }
}

/// All payload bytes below a forest, in order.
pub open spec fn forest_blob(ts: Seq<TreeNode>, on: bool) -> Seq<u8>
    decreases ts,
{
    if ts.len() == 0 {
        Seq::empty()
    } else {
        flat_blob(ts[0], on) + forest_blob(ts.drop_first(), on)
    }
}

/// The table rows of one node's subtree, in pre-order, when the subtree
/// starts at handle `base` and its payloads at blob offset `boff`.
pub open spec fn flat_entries(t: TreeNode, base: int, boff: int, on: bool) -> Seq<SpecEntry>
    decreases t,
{
    match t {
        TreeNode::File { name, data } => seq![file_entry(name, data, boff, on)],
        TreeNode::Dir { name, children } => seq![dir_entry(name, children, base)]
            + forest_entries(children, base + 1, boff, on),
    }
}

/// The table rows of a forest of sibling subtrees, laid back-to-back.
pub open spec fn forest_entries(ts: Seq<TreeNode>, base: int, boff: int, on: bool) -> Seq<
    SpecEntry,
>
    decreases ts,
{
    if ts.len() == 0 {
        Seq::empty()
    } else {
        flat_entries(ts[0], base, boff, on) + forest_entries(
            ts.drop_first(),
            base + node_count(ts[0]),
            boff + flat_blob(ts[0], on).len(),
            on,
        )
    }
}

/// The root directory's table row: handle 0, empty name, the top-level
/// siblings as children.
pub open spec fn root_entry(ts: Seq<TreeNode>) -> SpecEntry {
    SpecEntry {
        is_dir: true,
        compressed: false,
        name: Seq::empty(),
        size: ts.len() as int,
        offset: 0,
        stored_len: 0,
        children: child_bases(ts, 1),
    }
}

/// The whole artifact generated from a source forest: a function of the
/// input alone, which is what makes generation reproducible.
pub open spec fn spec_generate(ts: Seq<TreeNode>, id: Seq<u8>, options: u32) -> SpecFs {
    let on = opt_compress_on(options);
    SpecFs { id, entries: seq![root_entry(ts)] + forest_entries(ts, 1, 0, on), blob: forest_blob(
        ts,
        on,
    ) }
}

/// The compression primitive's two directions invert each other on every
/// file below this node. Generation with compression enabled establishes
/// this by running the primitive on each file.
pub open spec fn node_rt_ok(t: TreeNode) -> bool
    decreases t,
{
    match t {
        TreeNode::File { data, .. } => decode_of(compress_of(data)) == Some(data),
        TreeNode::Dir { children, .. } => forest_rt_ok(children),
    }
}

/// Round-trip fact for every file below a forest.
pub open spec fn forest_rt_ok(ts: Seq<TreeNode>) -> bool
    decreases ts,
{
    if ts.len() == 0 {
        true
    } else {
        node_rt_ok(ts[0]) && forest_rt_ok(ts.drop_first())
    }
}

/// The blob below a node is no longer than its raw data.
pub proof fn lemma_blob_le_data(t: TreeNode, on: bool)
    ensures
        flat_blob(t, on).len() <= node_data(t),
    decreases t,
{
    match t {
        TreeNode::File { data, .. } => {
            lemma_stored_le(data, on);
        },
        TreeNode::Dir { children, .. } => {
            lemma_forest_blob_le_data(children, on);
        },
    }
}

/// The blob below a forest is no longer than its raw data.
pub proof fn lemma_forest_blob_le_data(ts: Seq<TreeNode>, on: bool)
    ensures
        forest_blob(ts, on).len() <= forest_data(ts),
    decreases ts,
{
    if ts.len() > 0 {
        lemma_blob_le_data(ts[0], on);
        lemma_forest_blob_le_data(ts.drop_first(), on);
    }
}

/// A subtree's flattened form has one table row per node below it.
pub proof fn lemma_flat_entries_len(t: TreeNode, base: int, boff: int, on: bool)
    ensures
        flat_entries(t, base, boff, on).len() == node_count(t),
    decreases t,
{
    match t {
        TreeNode::File { .. } => {},
        TreeNode::Dir { children, .. } => {
            lemma_forest_entries_len(children, base + 1, boff, on);
        },
    }
}

/// A forest's flattened form has one table row per node below it.
pub proof fn lemma_forest_entries_len(ts: Seq<TreeNode>, base: int, boff: int, on: bool)
    ensures
        forest_entries(ts, base, boff, on).len() == forest_count(ts),
    decreases ts,
{
    if ts.len() > 0 {
        lemma_flat_entries_len(ts[0], base, boff, on);
        lemma_forest_entries_len(
            ts.drop_first(),
            base + node_count(ts[0]),
            boff + flat_blob(ts[0], on).len(),
            on,
        );
    }
}

/// Peeling the `j`-th sibling off the flattened forms of a forest prefix.
pub proof fn lemma_flatten_snoc(ts: Seq<TreeNode>, base: int, boff: int, on: bool, j: int)
    requires
        0 <= j < ts.len(),
    ensures
        forest_entries(ts.take(j + 1), base, boff, on) == forest_entries(ts.take(j), base, boff, on)
            + flat_entries(
            ts[j],
            base + forest_count(ts.take(j)),
            boff + forest_blob(ts.take(j), on).len(),
            on,
        ),
        forest_blob(ts.take(j + 1), on) == forest_blob(ts.take(j), on) + flat_blob(ts[j], on),
        child_bases(ts.take(j + 1), base) == child_bases(ts.take(j), base) + seq![
            base + forest_count(ts.take(j)),
        ],
        forest_rt_ok(ts.take(j + 1)) <==> forest_rt_ok(ts.take(j)) && node_rt_ok(ts[j]),
    decreases j,
{
    if j == 0 {
        let empty = Seq::<TreeNode>::empty();
        assert(ts.take(0) =~= empty);
        assert(ts.take(1) =~= seq![ts[0]]);
        assert(seq![ts[0]].drop_first() =~= empty);
        assert(seq![ts[0]][0] == ts[0]);
        assert(forest_entries(ts.take(1), base, boff, on) == flat_entries(ts[0], base, boff, on)
            + forest_entries(empty, base + node_count(ts[0]), boff + flat_blob(ts[0], on).len(), on));
        assert(forest_entries(ts.take(1), base, boff, on) =~= forest_entries(
            ts.take(0),
            base,
            boff,
            on,
        ) + flat_entries(ts[0], base, boff, on));
        assert(forest_blob(ts.take(1), on) =~= forest_blob(ts.take(0), on) + flat_blob(ts[0], on));
        assert(child_bases(ts.take(1), base) == seq![base] + child_bases(
            empty,
            base + node_count(ts[0]),
        ));
        assert(child_bases(ts.take(1), base) =~= child_bases(ts.take(0), base) + seq![base]);
    } else {
        let tail = ts.drop_first();
        lemma_flatten_snoc(tail, base + node_count(ts[0]), boff + flat_blob(ts[0], on).len(), on, j - 1);
        assert(ts.take(j + 1).drop_first() =~= tail.take(j));
        assert(ts.take(j).drop_first() =~= tail.take(j - 1));
        assert(ts.take(j + 1)[0] == ts[0]);
        assert(ts.take(j)[0] == ts[0]);
        assert(tail[j - 1] == ts[j]);
        assert(forest_entries(ts.take(j + 1), base, boff, on) == flat_entries(ts[0], base, boff, on)
            + forest_entries(tail.take(j), base + node_count(ts[0]), boff + flat_blob(ts[0], on).len(), on));
        assert(forest_entries(ts.take(j), base, boff, on) == flat_entries(ts[0], base, boff, on)
            + forest_entries(tail.take(j - 1), base + node_count(ts[0]), boff + flat_blob(ts[0], on).len(), on));
        assert(forest_count(ts.take(j)) == node_count(ts[0]) + forest_count(tail.take(j - 1)));
        assert(forest_blob(ts.take(j), on) == flat_blob(ts[0], on) + forest_blob(tail.take(j - 1), on));
        assert(forest_entries(ts.take(j + 1), base, boff, on) =~= forest_entries(ts.take(j), base, boff, on)
            + flat_entries(
            ts[j],
            base + forest_count(ts.take(j)),
            boff + forest_blob(ts.take(j), on).len(),
            on,
        ));
        assert(forest_blob(ts.take(j + 1), on) =~= forest_blob(ts.take(j), on) + flat_blob(ts[j], on));
        assert(child_bases(ts.take(j + 1), base) =~= child_bases(ts.take(j), base) + seq![
            base + forest_count(ts.take(j)),
        ]);
    }
}

/// Counts the table entries of one subtree.
fn count_of(node: &SrcNode) -> (r: u32)
    requires
        node_count(node@) <= u32::MAX,
    ensures
        r == node_count(node@),
    decreases node_count(node@),
{
    match node {
        SrcNode::File { .. } => 1,
        SrcNode::Dir { children, .. } => {
            proof {
                lemma_forest_view(children@);
            }
            let ghost ts = forest_view(children@);
            let n: usize = children.len();
            let mut acc: u32 = 1;
            let mut i: usize = 0;
            while i < n
                invariant
                    i <= n,
                    n == children@.len(),
                    ts == forest_view(children@),
                    ts.len() == n,
                    forall|k: int| 0 <= k < n ==> ts[k] == crate::tree::node_view(children@[k]),
                    node_count(node@) == 1 + forest_count(ts),
                    node_count(node@) <= u32::MAX,
                    acc == 1 + forest_count(ts.take(i as int)),
                decreases n - i,
            {
                proof {
                    lemma_forest_count_snoc(ts, i as int);
                    lemma_prefix_count_le(ts, i + 1);
                }
                let c = count_of(&children[i]);
                acc = acc + c;
                i = i + 1;
            }
            proof {
                lemma_take_all(ts);
            }
            acc
        },
    }
}

/// A prefix's entry count is bounded by the forest's.
pub proof fn lemma_prefix_count_le(ts: Seq<TreeNode>, i: int)
    requires
        0 <= i <= ts.len(),
    ensures
        forest_count(ts.take(i)) <= forest_count(ts),
    decreases ts.len() - i,
{
    if i == ts.len() {
        lemma_take_all(ts);
    } else {
        lemma_forest_count_snoc(ts, i);
        lemma_node_count_pos(ts[i]);
        lemma_prefix_count_le(ts, i + 1);
    }
}


/// The handles at which each sibling's subtree will start.
fn make_child_handles(children: &Vec<SrcNode>, first: u32) -> (r: Vec<u32>)
    requires
        first + forest_count(forest_view(children@)) <= u32::MAX,
    ensures
        Seq::new(r@.len(), |j: int| r@[j] as int) == child_bases(forest_view(children@), first as int),
        r@.len() == children@.len(),
{
    proof {
        lemma_forest_view(children@);
    }
    let ghost ts = forest_view(children@);
    let n: usize = children.len();
    let mut r: Vec<u32> = Vec::new();
    let mut b: u32 = first;
    let mut i: usize = 0;
    while i < n
        invariant
            i <= n,
            n == children@.len(),
            ts == forest_view(children@),
            ts.len() == n,
            forall|k: int| 0 <= k < n ==> ts[k] == crate::tree::node_view(children@[k]),
            first + forest_count(ts) <= u32::MAX,
            b == first + forest_count(ts.take(i as int)),
            r@.len() == i,
            Seq::new(r@.len(), |j: int| r@[j] as int) == child_bases(ts.take(i as int), first as int),
        decreases n - i,
    {
        proof {
            assert(decreases_to!(children@ => children@[i as int]));
            lemma_forest_count_snoc(ts, i as int);
            lemma_prefix_count_le(ts, i + 1);
        }
        let ghost old_r = r@;
        r.push(b);
        let c = count_of(&children[i]);
        b = b + c;
        proof {
            lemma_flatten_snoc(ts, first as int, 0, false, i as int);
            assert(Seq::new(r@.len(), |j: int| r@[j] as int) =~= child_bases(
                ts.take(i + 1),
                first as int,
            ));
        }
        i = i + 1;
    }
    proof {
        lemma_take_all(ts);
    }
    r
}

/// A byte allowed in a snapshot identifier: a letter, digit or underscore.
pub open spec fn ident_byte(b: u8) -> bool {
    (48 <= b <= 57) || (65 <= b <= 90) || (97 <= b <= 122) || b == 95
}

/// A usable snapshot identifier: non-empty, letters, digits and
/// underscores only, not starting with a digit.
pub open spec fn id_wf(id: Seq<u8>) -> bool {
    &&& id.len() > 0
    &&& !(48 <= id[0] <= 57)
    &&& forall|i: int| 0 <= i < id.len() ==> ident_byte(#[trigger] id[i])
}

/// Decides whether `id` is usable as a snapshot identifier.
pub fn id_ok(id: &[u8]) -> (r: bool)
    ensures
        r == id_wf(id@),
{
    let n: usize = id.len();
    if n == 0 {
        return false;
    }
    let first = id[0];
    if 48 <= first && first <= 57 {
        return false;
    }
    let mut i: usize = 0;
    while i < n
        invariant
            i <= n,
            n == id@.len(),
            forall|k: int| 0 <= k < i ==> ident_byte(#[trigger] id@[k]),
        decreases n - i,
    {
        let b = id[i];
        if !((48 <= b && b <= 57) || (65 <= b && b <= 90) || (97 <= b && b <= 122) || b == 95) {
            return false;
        }
        i = i + 1;
    }
    true
}

/// Produces a file's stored bytes and its compression decision, running the
/// compression primitive when compression is enabled.
fn make_stored(data: &Vec<u8>, on: bool) -> (r: (Vec<u8>, bool))
    ensures
        r.0@ == stored_of(data@, on),
        r.1 == should_compress(data@, on),
        on ==> decode_of(compress_of(data@)) == Some(data@),
{
    if on {
        let comp = compress_bytes(data.as_slice());
        let clen: u128 = comp.len() as u128;
        let dlen: u128 = data.len() as u128;
        if 20 * clen <= 19 * dlen {
            (comp, true)
        } else {
            (vstd::slice::slice_to_vec(data.as_slice()), false)
        }
    } else {
        (vstd::slice::slice_to_vec(data.as_slice()), false)
    }
}

/// Serializes one node's subtree onto the end of the table and blob.
fn flatten_node(node: &SrcNode, on: bool, entries: &mut Vec<Entry>, blob: &mut Vec<u8>)
    requires
        tree_wf(node@),
        old(entries)@.len() + node_count(node@) <= u32::MAX,
        old(blob)@.len() + node_data(node@) <= u32::MAX,
    ensures
        entries_view(final(entries)@) == entries_view(old(entries)@) + flat_entries(
            node@,
            old(entries)@.len() as int,
            old(blob)@.len() as int,
            on,
        ),
        final(blob)@ == old(blob)@ + flat_blob(node@, on),
        on ==> node_rt_ok(node@),
    decreases node_count(node@), 0int,
{
    let ghost base = entries@.len() as int;
    let ghost boff = blob@.len() as int;
    match node {
        SrcNode::File { name, data } => {
            let (stored, compressed) = make_stored(data, on);
            proof {
                lemma_stored_le(data@, on);
            }
            let e = Entry {
                flags: if compressed {
                    FLAG_COMPRESSED
                } else {
                    0
                },
                name: vstd::slice::slice_to_vec(name.as_slice()),
                size: data.len() as u32,
                offset: blob.len() as u32,
                stored_len: stored.len() as u32,
                children: Vec::new(),
            };
            proof {
                assert(e@.children =~= Seq::<int>::empty());
                assert(e@ == file_entry(name@, data@, boff, on));
            }
            let ghost old_entries = entries@;
            entries.push(e);
            append_bytes(blob, stored.as_slice());
            proof {
                assert(entries_view(old_entries.push(e)) =~= entries_view(old_entries) + seq![e@]);
                assert(flat_entries(node@, base, boff, on) == seq![file_entry(name@, data@, boff, on)]);
            }
        },
        SrcNode::Dir { name, children } => {
            proof {
                lemma_forest_view(children@);
                crate::tree::lemma_forest_count_lower(forest_view(children@));
            }
            let ghost ts = forest_view(children@);
            let first = entries.len() as u32 + 1;
            let kids = make_child_handles(children, first);
            let e = Entry {
                flags: FLAG_DIR,
                name: vstd::slice::slice_to_vec(name.as_slice()),
                size: children.len() as u32,
                offset: 0,
                stored_len: 0,
                children: kids,
            };
            proof {
                assert(e@ == dir_entry(name@, ts, base));
            }
            let ghost old_entries = entries@;
            entries.push(e);
            proof {
                assert(entries_view(old_entries.push(e)) =~= entries_view(old_entries) + seq![e@]);
            }
            let ghost mid_entries = entries@;
            flatten_forest(children, on, entries, blob);
            proof {
                assert(entries_view(entries@) == entries_view(mid_entries) + forest_entries(
                    ts,
                    base + 1,
                    boff,
                    on,
                ));
                assert(entries_view(entries@) =~= entries_view(old_entries) + flat_entries(
                    node@,
                    base,
                    boff,
                    on,
                ));
            }
        },
    }
}

/// Serializes a forest of sibling subtrees onto the end of the table and
/// blob, back-to-back in order.
fn flatten_forest(children: &Vec<SrcNode>, on: bool, entries: &mut Vec<Entry>, blob: &mut Vec<u8>)
    requires
        forest_wf(forest_view(children@)),
        old(entries)@.len() + forest_count(forest_view(children@)) <= u32::MAX,
        old(blob)@.len() + forest_data(forest_view(children@)) <= u32::MAX,
    ensures
        entries_view(final(entries)@) == entries_view(old(entries)@) + forest_entries(
            forest_view(children@),
            old(entries)@.len() as int,
            old(blob)@.len() as int,
            on,
        ),
        final(blob)@ == old(blob)@ + forest_blob(forest_view(children@), on),
        on ==> forest_rt_ok(forest_view(children@)),
    decreases forest_count(forest_view(children@)), 1int,
{
    proof {
        lemma_forest_view(children@);
        lemma_forest_wf_index(forest_view(children@));
    }
    let ghost ts = forest_view(children@);
    let ghost base0 = entries@.len() as int;
    let ghost boff0 = blob@.len() as int;
    let n: usize = children.len();
    let mut i: usize = 0;
    proof {
        assert(ts.take(0) =~= Seq::<TreeNode>::empty());
        assert(entries_view(entries@) =~= entries_view(entries@) + forest_entries(
            ts.take(0),
            base0,
            boff0,
            on,
        ));
        assert(blob@ =~= blob@ + forest_blob(ts.take(0), on));
    }
    while i < n
        invariant
            i <= n,
            n == children@.len(),
            ts == forest_view(children@),
            ts.len() == n,
            forall|k: int| 0 <= k < n ==> ts[k] == crate::tree::node_view(children@[k]),
            forall|k: int| 0 <= k < n ==> tree_wf(#[trigger] ts[k]),
            base0 + forest_count(ts) <= u32::MAX,
            boff0 + forest_data(ts) <= u32::MAX,
            entries@.len() == base0 + forest_count(ts.take(i as int)),
            blob@.len() == boff0 + forest_blob(ts.take(i as int), on).len(),
            entries_view(entries@) == entries_view(old(entries)@) + forest_entries(
                ts.take(i as int),
                base0,
                boff0,
                on,
            ),
            blob@ == old(blob)@ + forest_blob(ts.take(i as int), on),
            on ==> forest_rt_ok(ts.take(i as int)),
        decreases n - i,
    {
        proof {
            lemma_forest_count_snoc(ts, i as int);
            lemma_prefix_count_le(ts, i + 1);
            crate::tree::lemma_count_data_prefix_bound(ts, i + 1);
            lemma_forest_blob_le_data(ts.take(i as int), on);
            lemma_blob_le_data(ts[i as int], on);
        }
        flatten_node(&children[i], on, entries, blob);
        proof {
            lemma_flatten_snoc(ts, base0, boff0, on, i as int);
            lemma_flat_entries_len(
                ts[i as int],
                base0 + forest_count(ts.take(i as int)),
                boff0 + forest_blob(ts.take(i as int), on).len(),
                on,
            );
            assert(entries_view(entries@) =~= entries_view(old(entries)@) + forest_entries(
                ts.take(i + 1),
                base0,
                boff0,
                on,
            ));
            assert(blob@ =~= old(blob)@ + forest_blob(ts.take(i + 1), on));
        }
        i = i + 1;
    }
    proof {
        lemma_take_all(ts);
    }
}

/// Generates one snapshot from a source forest: the contents of the source
/// directory, each level sorted by name. The result is a function of the
/// inputs alone, so regenerating an unchanged tree under the same
/// identifier and options yields an identical artifact.
pub fn generate(children: &Vec<SrcNode>, id: &[u8], options: u32) -> (r: ErfsRoot)
    requires
        forest_wf(forest_view(children@)),
        forest_sorted(forest_view(children@)),
        forest_count(forest_view(children@)) < u32::MAX,
        forest_data(forest_view(children@)) <= u32::MAX,
        id_wf(id@),
    ensures
        r@ == spec_generate(forest_view(children@), id@, options),
        r@.wf(),
        opt_compress_on(options) ==> forest_rt_ok(forest_view(children@)),
{
    let on = options & OPT_COMPRESS != 0;
    proof {
        lemma_forest_view(children@);
        crate::tree::lemma_forest_count_lower(forest_view(children@));
    }
    let ghost ts = forest_view(children@);
    let kids = make_child_handles(children, 1);
    let root = Entry {
        flags: FLAG_DIR,
        name: Vec::new(),
        size: children.len() as u32,
        offset: 0,
        stored_len: 0,
        children: kids,
    };
    proof {
        assert(root@ == root_entry(ts));
    }
    let mut entries: Vec<Entry> = Vec::new();
    entries.push(root);
    let mut blob: Vec<u8> = Vec::new();
    proof {
        assert(entries_view(entries@) =~= seq![root_entry(ts)]);
    }
    flatten_forest(children, on, &mut entries, &mut blob);
    let r = ErfsRoot { id: vstd::slice::slice_to_vec(id), entries, blob };
    proof {
        assert(r@.entries =~= seq![root_entry(ts)] + forest_entries(ts, 1, 0, on));
        assert(r@.blob =~= forest_blob(ts, on));
        assert(r@ == spec_generate(ts, id@, options));
        crate::laws::lemma_generate_wf(ts, id@, options);
    }
    r
}

} // verus!
