//! The runtime: resolving paths and handles against one generated snapshot.
//!
//! All operations are pure reads over the immutable table and blob. A path
//! is split on `/` (empty leading and trailing segments are discarded), and
//! each segment is looked up among the current directory's children by
//! binary search over their sorted names.

use vstd::prelude::*;

use crate::bytes::lemma_lex_irrefl;
use crate::bytes::lemma_lex_trans;
use crate::bytes::lex_lt;
use crate::bytes::name_cmp;
use crate::bytes::NameOrd;
use crate::model::ErfsHandle;
use crate::model::ErfsRoot;
use crate::model::FsError;
use crate::model::SpecFs;
use crate::model::FLAG_COMPRESSED;
use crate::model::FLAG_DIR;
use crate::model::SEP;
use vstd::string::StringSliceAdditionalSpecFns;

verus! {

/// Looking a name up in a directory's child list: the child's handle, or
/// `None` when no child bears the name.
pub open spec fn find_named(fs: SpecFs, kids: Seq<int>, name: Seq<u8>) -> Option<int>
    decreases kids.len(),
{
    if kids.len() == 0 {
        None
    } else if fs.entries[kids[0]].name == name {
        Some(kids[0])
    } else {
        find_named(fs, kids.drop_first(), name)
    }
}

/// `find_named` finds exactly a child bearing the name.
pub proof fn lemma_find_named(fs: SpecFs, kids: Seq<int>, name: Seq<u8>)
    ensures
        match find_named(fs, kids, name) {
            Some(c) => exists|j: int|
                0 <= j < kids.len() && kids[j] == c && fs.entries[#[trigger] kids[j]].name == name,
            None => forall|j: int|
                0 <= j < kids.len() ==> fs.entries[#[trigger] kids[j]].name != name,
        },
    decreases kids.len(),
{
    if kids.len() > 0 && fs.entries[kids[0]].name != name {
        let tail = kids.drop_first();
        lemma_find_named(fs, tail, name);
        assert forall|k: int| 0 <= k < tail.len() implies #[trigger] tail[k] == kids[k + 1] by {}
        match find_named(fs, tail, name) {
            Some(c) => {
                let j = choose|j: int|
                    0 <= j < tail.len() && tail[j] == c && fs.entries[#[trigger] tail[j]].name
                        == name;
                assert(kids[j + 1] == c && fs.entries[kids[j + 1]].name == name);
            },
            None => {
                assert forall|j: int| 0 <= j < kids.len() implies fs.entries[
                    #[trigger] kids[j]
                ].name != name by {
                    if j > 0 {
                        assert(fs.entries[tail[j - 1]].name != name);
                    }
                }
            },
        }
    }
}

/// If some child bears the name, `find_named` does not miss it.
pub proof fn lemma_find_named_hit(fs: SpecFs, kids: Seq<int>, name: Seq<u8>, j: int)
    requires
        0 <= j < kids.len(),
        fs.entries[kids[j]].name == name,
    ensures
        find_named(fs, kids, name) is Some,
    decreases kids.len(),
{
    if fs.entries[kids[0]].name != name {
        assert(kids.drop_first()[j - 1] == kids[j]);
        lemma_find_named_hit(fs, kids.drop_first(), name, j - 1);
    }
}

/// Resolving a sequence of path segments from the entry at `cur`: the
/// resolved entry's handle, or the exact error — `NotADirectory` when a
/// segment must be looked up inside a file, `NotFound` when a directory has
/// no child so named.
pub open spec fn resolve_from(fs: SpecFs, cur: int, segs: Seq<Seq<u8>>) -> Result<int, FsError>
    decreases segs.len(),
{
    if segs.len() == 0 {
        Ok(cur)
    } else {
        let e = fs.entries[cur];
        if !e.is_dir {
            Err(FsError::NotADirectory)
        } else {
            match find_named(fs, e.children, segs[0]) {
                None => Err(FsError::NotFound),
                Some(c) => resolve_from(fs, c, segs.drop_first()),
            }
        }
    }
}

/// On a well-formed snapshot, resolution starting in range stays in range.
pub proof fn lemma_resolve_in_range(fs: SpecFs, cur: int, segs: Seq<Seq<u8>>)
    requires
        fs.wf(),
        0 <= cur < fs.entries.len(),
        resolve_from(fs, cur, segs) is Ok,
    ensures
        0 <= resolve_from(fs, cur, segs)->Ok_0 < fs.entries.len(),
    decreases segs.len(),
{
    if segs.len() > 0 {
        let e = fs.entries[cur];
        match find_named(fs, e.children, segs[0]) {
            None => {},
            Some(c) => {
                lemma_find_named(fs, e.children, segs[0]);
                assert(fs.entry_ok(cur));
                lemma_resolve_in_range(fs, c, segs.drop_first());
            },
        }
    }
}

/// The entries a resolution walks through, one per segment consumed: the
/// child found for the first segment, then the child found below it, down
/// to the resolved entry.
pub open spec fn resolve_trace(fs: SpecFs, cur: int, segs: Seq<Seq<u8>>) -> Seq<int>
    decreases segs.len(),
{
    if segs.len() == 0 {
        Seq::empty()
    } else {
        let e = fs.entries[cur];
        if !e.is_dir {
            Seq::empty()
        } else {
            match find_named(fs, e.children, segs[0]) {
                None => Seq::empty(),
                Some(c) => seq![c] + resolve_trace(fs, c, segs.drop_first()),
            }
        }
    }
}

/// When resolution succeeds, its trace reconstructs the path exactly: one
/// entry per segment, each bearing its segment as its name, each found by
/// name among the previous entry's children, the last being the entry that
/// resolution returns.
pub proof fn lemma_resolve_trace(fs: SpecFs, cur: int, segs: Seq<Seq<u8>>)
    requires
        resolve_from(fs, cur, segs) is Ok,
    ensures
        ({
            let trace = resolve_trace(fs, cur, segs);
            &&& trace.len() == segs.len()
            &&& forall|j: int| 0 <= j < segs.len() ==> fs.entries[#[trigger] trace[j]].name
                == segs[j]
            &&& forall|j: int|
                0 <= j < segs.len() ==> find_named(
                    fs,
                    fs.entries[if j == 0 {
                        cur
                    } else {
                        trace[j - 1]
                    }].children,
                    segs[j],
                ) == Some(#[trigger] trace[j])
            &&& segs.len() > 0 ==> trace.last() == resolve_from(fs, cur, segs)->Ok_0
        }),
    decreases segs.len(),
{
    if segs.len() > 0 {
        let e = fs.entries[cur];
        let c = find_named(fs, e.children, segs[0])->Some_0;
        lemma_find_named(fs, e.children, segs[0]);
        let tail = segs.drop_first();
        lemma_resolve_trace(fs, c, tail);
        let trace = resolve_trace(fs, cur, segs);
        let sub = resolve_trace(fs, c, tail);
        assert(trace == seq![c] + sub);
        assert forall|j: int| 0 <= j < segs.len() implies fs.entries[#[trigger] trace[j]].name
            == segs[j] by {
            if j > 0 {
                assert(trace[j] == sub[j - 1]);
                assert(tail[j - 1] == segs[j]);
            }
        }
        assert forall|j: int| 0 <= j < segs.len() implies find_named(
            fs,
            fs.entries[if j == 0 {
                cur
            } else {
                trace[j - 1]
            }].children,
            segs[j],
        ) == Some(#[trigger] trace[j]) by {
            if j > 0 {
                assert(trace[j] == sub[j - 1]);
                assert(tail[j - 1] == segs[j]);
                if j == 1 {
                    assert(trace[0] == c);
                } else {
                    assert(trace[j - 1] == sub[j - 2]);
                }
            }
        }
        if segs.len() > 1 {
            assert(trace.last() == sub.last());
        }
    }
}

/// The byte string with its maximal run of leading separators removed.
pub open spec fn drop_leading(p: Seq<u8>) -> Seq<u8>
    decreases p.len(),
{
    if p.len() > 0 && p[0] == SEP {
        drop_leading(p.drop_first())
    } else {
        p
    }
}

/// The byte string with its maximal run of trailing separators removed.
pub open spec fn drop_trailing(p: Seq<u8>) -> Seq<u8>
    decreases p.len(),
{
    if p.len() > 0 && p.last() == SEP {
        drop_trailing(p.drop_last())
    } else {
        p
    }
}

/// The index of the first separator in `p`, or `p.len()` when none occurs.
pub open spec fn first_sep(p: Seq<u8>) -> int
    decreases p.len(),
{
    if p.len() == 0 {
        0
    } else if p[0] == SEP {
        0
    } else {
        1 + first_sep(p.drop_first())
    }
}

/// `first_sep` names the first separator.
pub proof fn lemma_first_sep(p: Seq<u8>)
    ensures
        0 <= first_sep(p) <= p.len(),
        forall|k: int| 0 <= k < first_sep(p) ==> p[k] != SEP,
        first_sep(p) < p.len() ==> p[first_sep(p)] == SEP,
    decreases p.len(),
{
    if p.len() > 0 && p[0] != SEP {
        let tail = p.drop_first();
        lemma_first_sep(tail);
        assert forall|k: int| 0 <= k < first_sep(p) implies p[k] != SEP by {
            if k > 0 {
                assert(tail[k - 1] != SEP);
            }
        }
    }
}

/// Splitting a (already trimmed) byte string on separators.
pub open spec fn split_segs(p: Seq<u8>) -> Seq<Seq<u8>>
    decreases p.len(),
{
    if p.len() == 0 {
        Seq::empty()
    } else {
        let k = first_sep(p);
        if k == p.len() {
            seq![p]
        } else {
            proof {
                lemma_first_sep(p);
            }
            seq![p.take(k)] + split_segs(p.skip(k + 1))
        }
    }
}

/// The segments of a path: split on `/`, with empty leading and trailing
/// segments discarded. An empty result names the root directory itself.
pub open spec fn path_segs(p: Seq<u8>) -> Seq<Seq<u8>> {
    split_segs(drop_trailing(drop_leading(p)))
}

/// A run of leading separators drops to the suffix after it.
proof fn lemma_drop_leading_is_skip(p: Seq<u8>, s: int)
    requires
        0 <= s <= p.len(),
        forall|k: int| 0 <= k < s ==> p[k] == SEP,
        s == p.len() || p[s] != SEP,
    ensures
        drop_leading(p) == p.skip(s),
    decreases s,
{
    if s == 0 {
        assert(p.skip(0) =~= p);
    } else {
        let tail = p.drop_first();
        assert forall|k: int| 0 <= k < s - 1 implies tail[k] == SEP by {
            assert(p[k + 1] == SEP);
        }
        lemma_drop_leading_is_skip(tail, s - 1);
        assert(tail.skip(s - 1) =~= p.skip(s));
    }
}

/// A run of trailing separators drops to the prefix before it.
proof fn lemma_drop_trailing_is_take(p: Seq<u8>, e: int)
    requires
        0 <= e <= p.len(),
        forall|k: int| e <= k < p.len() ==> p[k] == SEP,
        e == 0 || p[e - 1] != SEP,
    ensures
        drop_trailing(p) == p.take(e),
    decreases p.len() - e,
{
    if e == p.len() {
        assert(p.take(e) =~= p);
    } else {
        let head = p.drop_last();
        assert forall|k: int| e <= k < head.len() implies head[k] == SEP by {}
        lemma_drop_trailing_is_take(head, e);
        assert(head.take(e) =~= p.take(e));
    }
}

/// Splits a path into its segments.
fn split_path(path: &[u8]) -> (r: Vec<Vec<u8>>)
    ensures
        r.deep_view() == path_segs(path@),
{
    let len: usize = path.len();
    let mut start: usize = 0;
    while start < len && path[start] == SEP
        invariant
            start <= len,
            len == path@.len(),
            forall|k: int| 0 <= k < start ==> path@[k] == SEP,
        decreases len - start,
    {
        start = start + 1;
    }
    let mut end: usize = len;
    while end > start && path[end - 1] == SEP
        invariant
            start <= end <= len,
            len == path@.len(),
            forall|k: int| end <= k < len ==> path@[k] == SEP,
        decreases end,
    {
        end = end - 1;
    }
    let ghost trimmed = path@.subrange(start as int, end as int);
    proof {
        lemma_drop_leading_is_skip(path@, start as int);
        if end == len {
            assert(path@.skip(start as int).take(end - start as int) =~= trimmed);
            lemma_drop_trailing_is_take(path@.skip(start as int), end - start as int);
        } else {
            assert forall|k: int|
                end - start <= k < path@.skip(start as int).len() implies path@.skip(
                start as int,
            )[k] == SEP by {
                assert(path@[k + start] == SEP);
            }
            lemma_drop_trailing_is_take(path@.skip(start as int), end - start as int);
            assert(path@.skip(start as int).take(end - start as int) =~= trimmed);
        }
        assert(path_segs(path@) == split_segs(trimmed));
    }
    let mut segs: Vec<Vec<u8>> = Vec::new();
    let mut cur: usize = start;
    let mut j: usize = start;
    if start == end {
        proof {
            assert(trimmed.len() == 0);
            assert(segs.deep_view() =~~= path_segs(path@));
        }
        return segs;
    }
    proof {
        assert(segs.deep_view() + split_segs(path@.subrange(cur as int, end as int)) =~= split_segs(
            trimmed,
        ));
    }
    while j < end
        invariant
            start <= cur <= j <= end <= len,
            len == path@.len(),
            end > start,
            trimmed == path@.subrange(start as int, end as int),
            cur == start || path@[cur - 1] == SEP,
            forall|k: int| cur <= k < j ==> path@[k] != SEP,
            segs.deep_view() + split_segs(path@.subrange(cur as int, end as int)) == split_segs(
                trimmed,
            ),
        decreases end - j,
    {
        if path[j] == SEP {
            let seg = vstd::slice::slice_to_vec(
                vstd::slice::slice_subrange(path, cur, j),
            );
            let ghost old_segs = segs.deep_view();
            segs.push(seg);
            proof {
                let rest = path@.subrange(cur as int, end as int);
                lemma_first_sep_at(rest, j - cur);
                assert(rest.take(j - cur) =~= path@.subrange(cur as int, j as int));
                assert(rest.skip(j - cur + 1) =~= path@.subrange(j + 1 as int, end as int));
                assert(split_segs(rest) == seq![rest.take(j - cur)] + split_segs(
                    rest.skip(j - cur + 1),
                ));
                assert(segs.deep_view() =~~= old_segs.push(path@.subrange(cur as int, j as int)));
                assert(segs.deep_view() + split_segs(path@.subrange(j + 1 as int, end as int))
                    =~= split_segs(trimmed));
            }
            cur = j + 1;
        }
        j = j + 1;
    }
    let seg = vstd::slice::slice_to_vec(vstd::slice::slice_subrange(path, cur, end));
    let ghost old_segs = segs.deep_view();
    segs.push(seg);
    proof {
        let rest = path@.subrange(cur as int, end as int);
        assert(rest.len() > 0) by {
            if cur == start {
            } else {
                assert(path@[cur - 1] == SEP);
                assert(cur - 1 < end);
                if cur == end {
                    assert(trimmed.last() == SEP);
                    assert(false);
                }
            }
        }
        lemma_first_sep_none(rest);
        assert(split_segs(rest) == seq![rest]);
        assert(segs.deep_view() =~~= old_segs.push(rest));
        assert(segs.deep_view() =~= path_segs(path@));
    }
    segs
}

/// When position `k` holds the first separator.
proof fn lemma_first_sep_at(p: Seq<u8>, k: int)
    requires
        0 <= k < p.len(),
        p[k] == SEP,
        forall|j: int| 0 <= j < k ==> p[j] != SEP,
    ensures
        first_sep(p) == k,
    decreases k,
{
    if k > 0 {
        let tail = p.drop_first();
        assert forall|j: int| 0 <= j < k - 1 implies tail[j] != SEP by {
            assert(p[j + 1] != SEP);
        }
        lemma_first_sep_at(tail, k - 1);
    }
}

/// When no separator occurs at all.
proof fn lemma_first_sep_none(p: Seq<u8>)
    requires
        forall|j: int| 0 <= j < p.len() ==> p[j] != SEP,
    ensures
        first_sep(p) == p.len(),
    decreases p.len(),
{
    if p.len() > 0 {
        lemma_first_sep_none(p.drop_first());
    }
}

/// Binary search among a directory's sorted children for the child named
/// `name`.
fn find_child(fs: &ErfsRoot, dir: usize, name: &[u8]) -> (r: Option<u32>)
    requires
        fs@.wf(),
        dir < fs@.entries.len(),
        fs@.entries[dir as int].is_dir,
    ensures
        match r {
            Some(c) => find_named(fs@, fs@.entries[dir as int].children, name@) == Some(c as int),
            None => find_named(fs@, fs@.entries[dir as int].children, name@) is None,
        },
{
    let ghost kids = fs@.entries[dir as int].children;
    proof {
        assert(fs@.entry_ok(dir as int));
        assert forall|j: int| 0 <= j < kids.len() implies 0 <= #[trigger] kids[j]
            < fs@.entries.len() by {
            assert(fs@.entries[dir as int].children[j] == kids[j]);
        }
        assert forall|j1: int, j2: int| 0 <= j1 < j2 < kids.len() implies lex_lt(
            fs@.entries[#[trigger] kids[j1]].name,
            fs@.entries[#[trigger] kids[j2]].name,
        ) by {
            assert(fs@.entries[dir as int].children[j1] == kids[j1]);
            assert(fs@.entries[dir as int].children[j2] == kids[j2]);
        }
    }
    let e = &fs.entries[dir];
    let mut lo: usize = 0;
    let mut hi: usize = e.children.len();
    proof {
        assert(e@ == fs@.entries[dir as int]);
        assert(kids.len() == e.children@.len());
    }
    while lo < hi
        invariant
            fs@.wf(),
            dir < fs@.entries.len(),
            fs@.entries[dir as int].is_dir,
            e@ == fs@.entries[dir as int],
            kids == fs@.entries[dir as int].children,
            kids.len() == e.children@.len(),
            forall|j: int| 0 <= j < kids.len() ==> #[trigger] kids[j] == e.children@[j] as int,
            forall|j: int| 0 <= j < kids.len() ==> 0 <= #[trigger] kids[j] < fs@.entries.len(),
            forall|j1: int, j2: int|
                0 <= j1 < j2 < kids.len() ==> lex_lt(
                    fs@.entries[#[trigger] kids[j1]].name,
                    fs@.entries[#[trigger] kids[j2]].name,
                ),
            lo <= hi <= kids.len(),
            forall|j: int| 0 <= j < lo ==> lex_lt(fs@.entries[#[trigger] kids[j]].name, name@),
            forall|j: int|
                hi <= j < kids.len() ==> lex_lt(name@, fs@.entries[#[trigger] kids[j]].name),
        decreases hi - lo,
    {
        let mid = lo + (hi - lo) / 2;
        let child: u32 = e.children[mid];
        proof {
            assert(kids[mid as int] == child as int);
            assert(0 <= kids[mid as int] < fs@.entries.len());
        }
        let cn = &fs.entries[child as usize];
        match name_cmp(name, cn.name.as_slice()) {
            NameOrd::Equal => {
                proof {
                    lemma_find_named_hit(fs@, kids, name@, mid as int);
                    lemma_find_named(fs@, kids, name@);
                    let c = find_named(fs@, kids, name@)->Some_0;
                    let j = choose|j: int|
                        0 <= j < kids.len() && kids[j] == c && fs@.entries[
                            #[trigger] kids[j]
                        ].name == name@;
                    if j != mid {
                        assert(lex_lt(name@, name@));
                        lemma_lex_irrefl(name@);
                    }
                }
                return Some(child);
            },
            NameOrd::Less => {
                proof {
                    assert forall|j: int| mid <= j < kids.len() implies lex_lt(
                        name@,
                        fs@.entries[#[trigger] kids[j]].name,
                    ) by {
                        if j > mid {
                            lemma_lex_trans(
                                name@,
                                fs@.entries[kids[mid as int]].name,
                                fs@.entries[kids[j]].name,
                            );
                        }
                    }
                }
                hi = mid;
            },
            NameOrd::Greater => {
                proof {
                    assert forall|j: int| 0 <= j < mid + 1 implies lex_lt(
                        fs@.entries[#[trigger] kids[j]].name,
                        name@,
                    ) by {
                        if j < mid {
                            lemma_lex_trans(
                                fs@.entries[kids[j]].name,
                                fs@.entries[kids[mid as int]].name,
                                name@,
                            );
                        }
                    }
                }
                lo = mid + 1;
            },
        }
    }
    proof {
        lemma_find_named(fs@, kids, name@);
        match find_named(fs@, kids, name@) {
            Some(c) => {
                let j = choose|j: int|
                    0 <= j < kids.len() && kids[j] == c && fs@.entries[#[trigger] kids[j]].name
                        == name@;
                if j < lo {
                    assert(lex_lt(fs@.entries[kids[j]].name, name@));
                } else {
                    assert(lex_lt(name@, fs@.entries[kids[j]].name));
                }
                lemma_lex_irrefl(name@);
                assert(false);
            },
            None => {},
        }
    }
    None
}

/// Resolves `path` to a handle. On success, returns the resolved entry's
/// handle and its `size` — a file's logical byte length, a directory's
/// child count. Fails with `NotFound` when a directory on the walk has no
/// child named by a segment, and with `NotADirectory` when a non-final
/// segment resolves to a file.
pub fn open(fs: &ErfsRoot, path: &str) -> (r: Result<(ErfsHandle, u32), FsError>)
    requires
        fs@.wf(),
    ensures
        ({
            let res = resolve_from(fs@, 0, path_segs(path.spec_bytes()));
            match res {
                Ok(i) => r matches Ok(h) && h.0.idx == i && h.1 == fs@.entries[i].size,
                Err(e) => r == Err::<(ErfsHandle, u32), FsError>(e),
            }
        }),
{
    let ghost gsegs = path_segs(path.spec_bytes());
    let segs = split_path(path.as_bytes());
    let n: usize = segs.len();
    let mut cur: u32 = 0;
    let mut k: usize = 0;
    proof {
        assert(gsegs.skip(0) =~= gsegs);
    }
    while k < n
        invariant
            fs@.wf(),
            k <= n,
            gsegs == path_segs(path.spec_bytes()),
            n == gsegs.len(),
            segs.deep_view() == gsegs,
            n == segs@.len(),
            cur < fs@.entries.len(),
            resolve_from(fs@, 0, gsegs) == resolve_from(fs@, cur as int, gsegs.skip(k as int)),
        decreases n - k,
    {
        let ghost rest = gsegs.skip(k as int);
        proof {
            assert(rest.len() > 0);
            assert(rest[0] == gsegs[k as int]);
            assert(gsegs[k as int] =~= segs@[k as int]@);
        }
        if fs.entries[cur as usize].flags != FLAG_DIR {
            proof {
                assert(!fs@.entries[cur as int].is_dir);
                assert(resolve_from(fs@, cur as int, rest) == Err::<int, FsError>(
                    FsError::NotADirectory,
                ));
            }
            return Err(FsError::NotADirectory);
        }
        let seg = &segs[k];
        match find_child(fs, cur as usize, seg.as_slice()) {
            None => {
                proof {
                    assert(resolve_from(fs@, cur as int, rest) == Err::<int, FsError>(
                        FsError::NotFound,
                    ));
                }
                return Err(FsError::NotFound);
            },
            Some(c) => {
                proof {
                    let kids = fs@.entries[cur as int].children;
                    lemma_find_named(fs@, kids, gsegs[k as int]);
                    assert(fs@.entry_ok(cur as int));
                    assert((c as int) < fs@.entries.len());
                    assert(rest.drop_first() =~= gsegs.skip(k + 1));
                    assert(resolve_from(fs@, cur as int, rest) == resolve_from(
                        fs@,
                        c as int,
                        gsegs.skip(k + 1),
                    ));
                }
                cur = c;
            },
        }
        k = k + 1;
    }
    proof {
        assert(gsegs.skip(n as int) =~= Seq::<Seq<u8>>::empty());
        assert(resolve_from(fs@, 0, gsegs) == Ok::<int, FsError>(cur as int));
    }
    let size = fs.entries[cur as usize].size;
    Ok((ErfsHandle { idx: cur }, size))
}

/// Reads the logical content of the file named by an already-resolved
/// handle, decoding the stored payload when it is compressed. Fails with
/// `InvalidHandle` when the handle does not name an entry, `IsADirectory`
/// when it names a directory, and `CorruptData` when the stored payload
/// does not yield exactly `size` bytes.
pub fn read_file(fs: &ErfsRoot, entry: ErfsHandle) -> (r: Result<Vec<u8>, FsError>)
    requires
        fs@.wf(),
    ensures
        ({
            let i = entry.idx as int;
            if i >= fs@.entries.len() {
                r == Err::<Vec<u8>, FsError>(FsError::InvalidHandle)
            } else if fs@.entries[i].is_dir {
                r == Err::<Vec<u8>, FsError>(FsError::IsADirectory)
            } else {
                match fs@.entry_content(i) {
                    Some(c) => r matches Ok(v) && v@ == c,
                    None => r == Err::<Vec<u8>, FsError>(FsError::CorruptData),
                }
            }
        }),
{
    let i = entry.idx as usize;
    if i >= fs.entries.len() {
        return Err(FsError::InvalidHandle);
    }
    let e = &fs.entries[i];
    if e.flags == FLAG_DIR {
        return Err(FsError::IsADirectory);
    }
    proof {
        assert(fs@.entry_ok(i as int));
    }
    let off = e.offset as usize;
    let slen = e.stored_len as usize;
    let stored = vstd::slice::slice_subrange(fs.blob.as_slice(), off, off + slen);
    proof {
        assert(stored@ == fs@.stored_bytes(i as int));
    }
    if e.flags == FLAG_COMPRESSED {
        match crate::zlib::decompress_bytes(stored) {
            Some(v) => {
                if v.len() == e.size as usize {
                    Ok(v)
                } else {
                    Err(FsError::CorruptData)
                }
            },
            None => Err(FsError::CorruptData),
        }
    } else {
        if e.stored_len == e.size {
            Ok(vstd::slice::slice_to_vec(stored))
        } else {
            Err(FsError::CorruptData)
        }
    }
}

/// Resolves `path` and reads the named file's logical content. Fails as
/// `open` does, and with `IsADirectory` when the path names a directory.
pub fn read(fs: &ErfsRoot, path: &str) -> (r: Result<Vec<u8>, FsError>)
    requires
        fs@.wf(),
    ensures
        ({
            let res = resolve_from(fs@, 0, path_segs(path.spec_bytes()));
            match res {
                Ok(i) => if fs@.entries[i].is_dir {
                    r == Err::<Vec<u8>, FsError>(FsError::IsADirectory)
                } else {
                    match fs@.entry_content(i) {
                        Some(c) => r matches Ok(v) && v@ == c,
                        None => r == Err::<Vec<u8>, FsError>(FsError::CorruptData),
                    }
                },
                Err(e) => r == Err::<Vec<u8>, FsError>(e),
            }
        }),
{
    match open(fs, path) {
        Err(e) => Err(e),
        Ok((h, _size)) => {
            proof {
                lemma_resolve_in_range(fs@, 0, path_segs(path.spec_bytes()));
            }
            read_file(fs, h)
        },
    }
}

/// The name of the entry a handle names; the root directory's name is
/// empty. Fails with `InvalidHandle` when the handle does not name an
/// entry of this snapshot.
pub fn entry_name<'a>(fs: &'a ErfsRoot, entry: ErfsHandle) -> (r: Result<&'a [u8], FsError>)
    ensures
        ({
            let i = entry.idx as int;
            if i < fs@.entries.len() {
                r matches Ok(v) && v@ == fs@.entries[i].name
            } else {
                r == Err::<&'a [u8], FsError>(FsError::InvalidHandle)
            }
        }),
{
    let i = entry.idx as usize;
    if i < fs.entries.len() {
        Ok(fs.entries[i].name.as_slice())
    } else {
        Err(FsError::InvalidHandle)
    }
}

/// The flag word of the entry a handle names: `FLAG_DIR` for a directory,
/// `FLAG_COMPRESSED` for a compressed file, `0` for a file stored raw.
pub fn entry_flags(fs: &ErfsRoot, entry: ErfsHandle) -> (r: Result<u32, FsError>)
    ensures
        ({
            let i = entry.idx as int;
            if i < fs@.entries.len() {
                r matches Ok(f) && (f == FLAG_DIR <==> fs@.entries[i].is_dir) && (f
                    == FLAG_COMPRESSED <==> fs@.entries[i].compressed)
            } else {
                r == Err::<u32, FsError>(FsError::InvalidHandle)
            }
        }),
{
    let i = entry.idx as usize;
    if i < fs.entries.len() {
        Ok(fs.entries[i].flags)
    } else {
        Err(FsError::InvalidHandle)
    }
}

/// The size of the entry a handle names: a file's logical byte length, a
/// directory's child count.
pub fn entry_size(fs: &ErfsRoot, entry: ErfsHandle) -> (r: Result<u32, FsError>)
    ensures
        ({
            let i = entry.idx as int;
            if i < fs@.entries.len() {
                r matches Ok(s) && s == fs@.entries[i].size
            } else {
                r == Err::<u32, FsError>(FsError::InvalidHandle)
            }
        }),
{
    let i = entry.idx as usize;
    if i < fs.entries.len() {
        Ok(fs.entries[i].size)
    } else {
        Err(FsError::InvalidHandle)
    }
}

/// The `index`-th child (0-based, in the sorted order fixed at generation
/// time) of the directory a handle names. Succeeds exactly for
/// `index < child count`; fails with `OutOfRange` above that,
/// `NotADirectory` on a file's handle, `InvalidHandle` on a stale handle.
pub fn read_dir(fs: &ErfsRoot, dir: ErfsHandle, index: u32) -> (r: Result<ErfsHandle, FsError>)
    ensures
        ({
            let i = dir.idx as int;
            if i >= fs@.entries.len() {
                r == Err::<ErfsHandle, FsError>(FsError::InvalidHandle)
            } else if !fs@.entries[i].is_dir {
                r == Err::<ErfsHandle, FsError>(FsError::NotADirectory)
            } else if index >= fs@.entries[i].children.len() {
                r == Err::<ErfsHandle, FsError>(FsError::OutOfRange)
            } else {
                r matches Ok(h) && h.idx == fs@.entries[i].children[index as int]
            }
        }),
{
    let i = dir.idx as usize;
    if i >= fs.entries.len() {
        return Err(FsError::InvalidHandle);
    }
    let e = &fs.entries[i];
    if e.flags != FLAG_DIR {
        return Err(FsError::NotADirectory);
    }
    if (index as usize) >= e.children.len() {
        return Err(FsError::OutOfRange);
    }
    Ok(ErfsHandle { idx: e.children[index as usize] })
}

/// Walks the whole table in pre-order — which is handle order, since
/// generation assigns handles in pre-order — calling `visit_fn` on every
/// handle until it asks to stop. Returns whether the walk completed, and
/// the handles visited: every entry exactly once on a completed walk, and
/// nothing after the stopping entry on an interrupted one.
pub fn traverse<F: Fn(ErfsHandle) -> bool>(fs: &ErfsRoot, visit_fn: F) -> (r: (bool, Vec<
    ErfsHandle,
>))
    requires
        fs@.entries.len() <= u32::MAX,
        forall|h: ErfsHandle| #[trigger] call_requires(visit_fn, (h,)),
    ensures
        r.1@.len() <= fs@.entries.len(),
        forall|k: int| 0 <= k < r.1@.len() ==> (#[trigger] r.1@[k]).idx == k,
        forall|k: int|
            0 <= k < r.1@.len() - 1 ==> call_ensures(visit_fn, (#[trigger] r.1@[k],), true),
        r.0 ==> r.1@.len() == fs@.entries.len(),
        r.0 && r.1@.len() > 0 ==> call_ensures(visit_fn, (r.1@[r.1@.len() - 1],), true),
        !r.0 ==> r.1@.len() > 0 && call_ensures(visit_fn, (r.1@[r.1@.len() - 1],), false),
{
    let n: usize = fs.entries.len();
    let mut visited: Vec<ErfsHandle> = Vec::new();
    let mut i: usize = 0;
    while i < n
        invariant
            i <= n,
            n == fs@.entries.len(),
            n <= u32::MAX,
            visited@.len() == i,
            forall|k: int| 0 <= k < i ==> (#[trigger] visited@[k]).idx == k,
            forall|k: int| 0 <= k < i ==> call_ensures(visit_fn, (#[trigger] visited@[k],), true),
            forall|h: ErfsHandle| #[trigger] call_requires(visit_fn, (h,)),
        decreases n - i,
    {
        let h = ErfsHandle { idx: i as u32 };
        visited.push(h);
        if !visit_fn(h) {
            return (false, visited);
        }
        i = i + 1;
    }
    (true, visited)
}

} // verus!
