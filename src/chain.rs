use vstd::prelude::*;

use crate::chunk::{Chunk, ChunkView, chunk_wf, edit_view, reset_view, trim_start_view, trim_end_view, initial_view, render_chunk, split_left, split_right};
use crate::error::{Error, FmsErrType};
use crate::indent::{excluded, indent_chars, indent_marks, indent_text, lemma_marks_in_range, mark_indents};
use crate::pattern::CompiledRegex;
use crate::text::{copy_bools, copy_chars, sub_chars};

verus! {

/// The text that a sequence of chunks renders, in order.
pub open spec fn render_chain(ch: Seq<ChunkView>) -> Seq<char>
    decreases ch.len(),
{
    if ch.len() == 0 {
        Seq::empty()
    } else {
        render_chain(ch.drop_last()) + render_chunk(ch.last())
    }
}

pub open spec fn inside(c: ChunkView, k: nat) -> bool {
    c.start < k < c.end
}

pub open spec fn covers(ch: Seq<ChunkView>, p: nat) -> bool {
    exists|i: int| 0 <= i < ch.len() && #[trigger] ch[i].start <= p < ch[i].end
}

pub open spec fn starts_at(ch: Seq<ChunkView>, k: nat) -> bool {
    exists|i: int| 0 <= i < ch.len() && #[trigger] ch[i].start == k
}

pub open spec fn ends_at(ch: Seq<ChunkView>, k: nat) -> bool {
    exists|i: int| 0 <= i < ch.len() && #[trigger] ch[i].end == k
}

/// Each chunk is consistent and holds its own slice of `orig`.
pub open spec fn chunks_consistent(ch: Seq<ChunkView>, orig: Seq<char>) -> bool {
    forall|i: int|
        0 <= i < ch.len() ==> {
            &&& chunk_wf(#[trigger] ch[i])
            &&& ch[i].end <= orig.len()
            &&& ch[i].original == orig.subrange(ch[i].start as int, ch[i].end as int)
            &&& orig.len() > 0 ==> ch[i].start < ch[i].end
        }
}

/// No two chunks share an offset.
pub open spec fn chunks_disjoint(ch: Seq<ChunkView>) -> bool {
    forall|i: int, j: int|
        0 <= i < ch.len() && 0 <= j < ch.len() && i != j ==> #[trigger] ch[i].end <= #[trigger] ch[j].start
            || ch[j].end <= ch[i].start
}

/// Every offset of the original text lies in some chunk.
pub open spec fn chunks_cover(ch: Seq<ChunkView>, n: nat) -> bool {
    forall|p: nat| p < n ==> #[trigger] covers(ch, p)
}

/// The chunks, read in any order, partition `[0, orig.len())`.
pub open spec fn partition(ch: Seq<ChunkView>, orig: Seq<char>) -> bool {
    &&& ch.len() >= 1
    &&& orig.len() == 0 ==> ch.len() == 1
    &&& chunks_consistent(ch, orig)
    &&& chunks_disjoint(ch)
    &&& chunks_cover(ch, orig.len())
}

/// Some chunk holds `k` strictly inside, and that chunk is frozen by an edit.
pub open spec fn split_blocked(ch: Seq<ChunkView>, k: nat) -> bool {
    exists|j: int|
        0 <= j < ch.len() && inside(#[trigger] ch[j], k) && ch[j].edited && ch[j].content.len() > 0
}

/// `ch` with a chunk boundary at `k`: the chunk holding `k` strictly inside,
/// if there is one, is cut in two in place.
pub open spec fn split_chain(ch: Seq<ChunkView>, k: nat) -> Seq<ChunkView> {
    if exists|j: int| 0 <= j < ch.len() && inside(#[trigger] ch[j], k) {
        let j = choose|j: int| 0 <= j < ch.len() && inside(#[trigger] ch[j], k);
        ch.take(j) + seq![split_left(ch[j], k), split_right(ch[j], k)] + ch.skip(j + 1)
    } else {
        ch
    }
}

pub proof fn lemma_render_concat(a: Seq<ChunkView>, b: Seq<ChunkView>)
    ensures
        render_chain(a + b) == render_chain(a) + render_chain(b),
    decreases b.len(),
{
    if b.len() == 0 {
        assert(a + b =~= a);
        assert(render_chain(a) + render_chain(b) =~= render_chain(a));
    } else {
        lemma_render_concat(a, b.drop_last());
        assert((a + b).drop_last() =~= a + b.drop_last());
        assert((a + b).last() == b.last());
        assert(render_chain(a + b) =~= render_chain(a) + render_chain(b));
    }
}

pub proof fn lemma_render_one(c: ChunkView)
    ensures
        render_chain(seq![c]) == render_chunk(c),
{
    assert(seq![c].drop_last() =~= Seq::<ChunkView>::empty());
    assert(render_chain(Seq::<ChunkView>::empty()) == Seq::<char>::empty());
    assert(render_chain(seq![c]) =~= render_chunk(c));
}

/// Rendering the chain in three parts: before `j`, chunk `j`, after it.
pub proof fn lemma_render_at(ch: Seq<ChunkView>, j: int)
    requires
        0 <= j < ch.len(),
    ensures
        render_chain(ch) == render_chain(ch.take(j)) + render_chunk(ch[j]) + render_chain(ch.skip(j + 1)),
{
    assert(ch =~= ch.take(j) + seq![ch[j]] + ch.skip(j + 1));
    lemma_render_concat(ch.take(j) + seq![ch[j]], ch.skip(j + 1));
    lemma_render_concat(ch.take(j), seq![ch[j]]);
    lemma_render_one(ch[j]);
}

/// Replacing chunk `j` by chunks that render the same text leaves the
/// rendering unchanged.
pub proof fn lemma_render_replace(ch: Seq<ChunkView>, j: int, mid: Seq<ChunkView>)
    requires
        0 <= j < ch.len(),
        render_chain(mid) == render_chunk(ch[j]),
    ensures
        render_chain(ch.take(j) + mid + ch.skip(j + 1)) == render_chain(ch),
{
    lemma_render_at(ch, j);
    lemma_render_concat(ch.take(j) + mid, ch.skip(j + 1));
    lemma_render_concat(ch.take(j), mid);
}

/// In a partition each offset starts at most one chunk and ends at most one.
pub proof fn lemma_unique(ch: Seq<ChunkView>, orig: Seq<char>)
    requires
        partition(ch, orig),
    ensures
        forall|i: int, j: int|
            0 <= i < ch.len() && 0 <= j < ch.len() && #[trigger] ch[i].start == #[trigger] ch[j].start ==> i == j,
        forall|i: int, j: int|
            0 <= i < ch.len() && 0 <= j < ch.len() && #[trigger] ch[i].end == #[trigger] ch[j].end ==> i == j,
        forall|i: int, j: int, k: nat|
            0 <= i < ch.len() && 0 <= j < ch.len() && #[trigger] inside(ch[i], k) && #[trigger] inside(ch[j], k) ==> i == j,
{
    assert forall|i: int, j: int|
        0 <= i < ch.len() && 0 <= j < ch.len() && #[trigger] ch[i].start == #[trigger] ch[j].start implies i == j by {
        if i != j {
            assert(ch[i].start < ch[i].end);
            assert(ch[j].start < ch[j].end);
        }
    }
    assert forall|i: int, j: int|
        0 <= i < ch.len() && 0 <= j < ch.len() && #[trigger] ch[i].end == #[trigger] ch[j].end implies i == j by {
        if i != j {
            assert(ch[i].start < ch[i].end);
            assert(ch[j].start < ch[j].end);
        }
    }
}

/// `ch` with chunk `j` cut at `k`.
pub open spec fn cut_at(ch: Seq<ChunkView>, j: int, k: nat) -> Seq<ChunkView> {
    ch.take(j) + seq![split_left(ch[j], k), split_right(ch[j], k)] + ch.skip(j + 1)
}

proof fn lemma_cut_index(ch: Seq<ChunkView>, j: int, k: nat)
    requires
        0 <= j < ch.len(),
    ensures
        cut_at(ch, j, k).len() == ch.len() + 1,
        cut_at(ch, j, k)[j] == split_left(ch[j], k),
        cut_at(ch, j, k)[j + 1] == split_right(ch[j], k),
        forall|i: int| 0 <= i < j ==> #[trigger] cut_at(ch, j, k)[i] == ch[i],
        forall|i: int| j + 1 < i < ch.len() + 1 ==> #[trigger] cut_at(ch, j, k)[i] == ch[i - 1],
{
}

proof fn lemma_cut_consistent(ch: Seq<ChunkView>, orig: Seq<char>, j: int, k: nat)
    requires
        partition(ch, orig),
        0 <= j < ch.len(),
        inside(ch[j], k),
    ensures
        chunks_consistent(cut_at(ch, j, k), orig),
{
    lemma_cut_index(ch, j, k);
    let c = ch[j];
    let nc = cut_at(ch, j, k);
    let a = c.start as int;
    let b = c.end as int;
    assert(c.original == orig.subrange(a, b));
    assert(split_left(c, k).original =~= orig.subrange(a, k as int));
    assert(split_right(c, k).original =~= orig.subrange(k as int, b));
    assert forall|i: int| 0 <= i < nc.len() implies {
        &&& chunk_wf(#[trigger] nc[i])
        &&& nc[i].end <= orig.len()
        &&& nc[i].original == orig.subrange(nc[i].start as int, nc[i].end as int)
        &&& orig.len() > 0 ==> nc[i].start < nc[i].end
    } by {
        if i > j + 1 {
            assert(nc[i] == ch[i - 1]);
        }
    }
}

proof fn lemma_cut_disjoint(ch: Seq<ChunkView>, orig: Seq<char>, j: int, k: nat)
    requires
        partition(ch, orig),
        0 <= j < ch.len(),
        inside(ch[j], k),
    ensures
        chunks_disjoint(cut_at(ch, j, k)),
{
    lemma_cut_index(ch, j, k);
    let nc = cut_at(ch, j, k);
    assert forall|i: int, m: int|
        0 <= i < nc.len() && 0 <= m < nc.len() && i != m implies #[trigger] nc[i].end <= #[trigger] nc[m].start
            || nc[m].end <= nc[i].start by {
        let oi = if i <= j { i } else { i - 1 };
        let om = if m <= j { m } else { m - 1 };
        assert(nc[i].start >= ch[oi].start && nc[i].end <= ch[oi].end);
        assert(nc[m].start >= ch[om].start && nc[m].end <= ch[om].end);
        if oi != om {
            assert(ch[oi].end <= ch[om].start || ch[om].end <= ch[oi].start);
        }
    }
}

proof fn lemma_cut_cover(ch: Seq<ChunkView>, orig: Seq<char>, j: int, k: nat)
    requires
        partition(ch, orig),
        0 <= j < ch.len(),
        inside(ch[j], k),
    ensures
        chunks_cover(cut_at(ch, j, k), orig.len()),
{
    lemma_cut_index(ch, j, k);
    let nc = cut_at(ch, j, k);
    assert forall|p: nat| p < orig.len() implies #[trigger] covers(nc, p) by {
        assert(covers(ch, p));
        let i = choose|i: int| 0 <= i < ch.len() && #[trigger] ch[i].start <= p < ch[i].end;
        if i < j {
            assert(nc[i] == ch[i]);
        } else if i == j {
            if p < k {
                assert(nc[j].start <= p < nc[j].end);
            } else {
                assert(nc[j + 1].start <= p < nc[j + 1].end);
            }
        } else {
            assert(nc[i + 1] == ch[i]);
        }
    }
}

proof fn lemma_cut_bounds(ch: Seq<ChunkView>, j: int, k: nat)
    requires
        0 <= j < ch.len(),
        inside(ch[j], k),
    ensures
        forall|q: nat| starts_at(cut_at(ch, j, k), q) <==> (starts_at(ch, q) || q == k),
        forall|q: nat| ends_at(cut_at(ch, j, k), q) <==> (ends_at(ch, q) || q == k),
{
    lemma_cut_index(ch, j, k);
    let nc = cut_at(ch, j, k);
    assert forall|q: nat| starts_at(nc, q) <==> (starts_at(ch, q) || q == k) by {
        if starts_at(nc, q) {
            let i = choose|i: int| 0 <= i < nc.len() && #[trigger] nc[i].start == q;
            if i < j {
                assert(ch[i].start == q);
            } else if i == j {
                assert(ch[j].start == q);
            } else if i > j + 1 {
                assert(ch[i - 1].start == q);
            }
        }
        if starts_at(ch, q) {
            let i = choose|i: int| 0 <= i < ch.len() && #[trigger] ch[i].start == q;
            if i < j {
                assert(nc[i].start == q);
            } else if i == j {
                assert(nc[j].start == q);
            } else {
                assert(nc[i + 1].start == q);
            }
        }
        if q == k {
            assert(nc[j + 1].start == q);
        }
    }
    assert forall|q: nat| ends_at(nc, q) <==> (ends_at(ch, q) || q == k) by {
        if ends_at(nc, q) {
            let i = choose|i: int| 0 <= i < nc.len() && #[trigger] nc[i].end == q;
            if i < j {
                assert(ch[i].end == q);
            } else if i == j + 1 {
                assert(ch[j].end == q);
            } else if i > j + 1 {
                assert(ch[i - 1].end == q);
            }
        }
        if ends_at(ch, q) {
            let i = choose|i: int| 0 <= i < ch.len() && #[trigger] ch[i].end == q;
            if i < j {
                assert(nc[i].end == q);
            } else if i == j {
                assert(nc[j + 1].end == q);
            } else {
                assert(nc[i + 1].end == q);
            }
        }
        if q == k {
            assert(nc[j].end == q);
        }
    }
}

proof fn lemma_cut_render(ch: Seq<ChunkView>, j: int, k: nat)
    requires
        0 <= j < ch.len(),
        inside(ch[j], k),
        chunk_wf(ch[j]),
        !(ch[j].edited && ch[j].content.len() > 0),
    ensures
        render_chain(cut_at(ch, j, k)) == render_chain(ch),
{
    let c = ch[j];
    let l = split_left(c, k);
    let r = split_right(c, k);
    if !c.edited {
        assert(l.content + r.content =~= c.content);
    } else {
        assert(c.content =~= Seq::<char>::empty());
    }
    let mid = seq![l, r];
    assert(mid =~= seq![l] + seq![r]);
    lemma_render_concat(seq![l], seq![r]);
    lemma_render_one(l);
    lemma_render_one(r);
    assert(render_chain(mid) =~= render_chunk(c));
    lemma_render_replace(ch, j, mid);
}

/// Cutting a chunk of a partition at a point strictly inside it keeps the
/// partition, adds `k` as a boundary and leaves the rendering unchanged where
/// the chunk is not frozen.
pub proof fn lemma_split_partition(ch: Seq<ChunkView>, orig: Seq<char>, j: int, k: nat)
    requires
        partition(ch, orig),
        0 <= j < ch.len(),
        inside(ch[j], k),
    ensures
        split_chain(ch, k) == cut_at(ch, j, k),
        partition(split_chain(ch, k), orig),
        split_chain(ch, k).len() == ch.len() + 1,
        forall|q: nat| starts_at(split_chain(ch, k), q) <==> (starts_at(ch, q) || q == k),
        forall|q: nat| ends_at(split_chain(ch, k), q) <==> (ends_at(ch, q) || q == k),
        !split_blocked(ch, k) ==> render_chain(split_chain(ch, k)) == render_chain(ch),
{
    lemma_unique(ch, orig);
    lemma_cut_index(ch, j, k);
    lemma_cut_consistent(ch, orig, j, k);
    lemma_cut_disjoint(ch, orig, j, k);
    lemma_cut_cover(ch, orig, j, k);
    lemma_cut_bounds(ch, j, k);
    if !split_blocked(ch, k) {
        assert(!(ch[j].edited && ch[j].content.len() > 0));
        lemma_cut_render(ch, j, k);
    }
}

/// At an offset that no chunk holds strictly inside, a chunk starts (unless it
/// is the end of the text) and one ends (unless it is 0).
pub proof fn lemma_no_inside_bounds(ch: Seq<ChunkView>, orig: Seq<char>, k: nat)
    requires
        partition(ch, orig),
        k <= orig.len(),
        forall|j: int| 0 <= j < ch.len() ==> !inside(#[trigger] ch[j], k),
    ensures
        k < orig.len() || orig.len() == 0 ==> starts_at(ch, k),
        0 < k ==> ends_at(ch, k),
{
    if k < orig.len() {
        assert(covers(ch, k));
        let m = choose|m: int| 0 <= m < ch.len() && #[trigger] ch[m].start <= k < ch[m].end;
        assert(!inside(ch[m], k));
        assert(ch[m].start == k);
    }
    if orig.len() == 0 {
        assert(ch[0].start == k);
    }
    if 0 < k {
        let p = (k - 1) as nat;
        assert(covers(ch, p));
        let m = choose|m: int| 0 <= m < ch.len() && #[trigger] ch[m].start <= p < ch[m].end;
        assert(!inside(ch[m], k));
        assert(ch[m].end == k);
    }
}

/// A boundary lies strictly inside no chunk.
pub proof fn lemma_boundary_not_inside(ch: Seq<ChunkView>, orig: Seq<char>, k: nat)
    requires
        partition(ch, orig),
        starts_at(ch, k) || ends_at(ch, k),
    ensures
        forall|j: int| 0 <= j < ch.len() ==> !inside(#[trigger] ch[j], k),
{
    assert forall|j: int| 0 <= j < ch.len() implies !inside(#[trigger] ch[j], k) by {
        if inside(ch[j], k) {
            if starts_at(ch, k) {
                let i = choose|i: int| 0 <= i < ch.len() && #[trigger] ch[i].start == k;
                assert(ch[i].start < ch[i].end);
                assert(ch[i].end <= ch[j].start || ch[j].end <= ch[i].start);
            } else {
                let i = choose|i: int| 0 <= i < ch.len() && #[trigger] ch[i].end == k;
                assert(ch[i].start < ch[i].end);
                assert(ch[i].end <= ch[j].start || ch[j].end <= ch[i].start);
            }
        }
    }
}

/// A cut that is allowed leaves the question whether a second cut is allowed
/// as it was.
pub proof fn lemma_blocked_after_split(ch: Seq<ChunkView>, orig: Seq<char>, s: nat, e: nat)
    requires
        partition(ch, orig),
        !split_blocked(ch, s),
    ensures
        split_blocked(split_chain(ch, s), e) == split_blocked(ch, e),
{
    if exists|j: int| 0 <= j < ch.len() && inside(#[trigger] ch[j], s) {
        let j = choose|j: int| 0 <= j < ch.len() && inside(#[trigger] ch[j], s);
        lemma_split_partition(ch, orig, j, s);
        lemma_cut_index(ch, j, s);
        let nc = split_chain(ch, s);
        if split_blocked(nc, e) {
            let m = choose|m: int|
                0 <= m < nc.len() && inside(#[trigger] nc[m], e) && nc[m].edited && nc[m].content.len() > 0;
            if m < j {
                assert(inside(ch[m], e) && ch[m].edited && ch[m].content.len() > 0);
            } else if m > j + 1 {
                assert(inside(ch[m - 1], e) && ch[m - 1].edited && ch[m - 1].content.len() > 0);
            }
        }
        if split_blocked(ch, e) {
            let m = choose|m: int|
                0 <= m < ch.len() && inside(#[trigger] ch[m], e) && ch[m].edited && ch[m].content.len() > 0;
            if m < j {
                assert(inside(nc[m], e) && nc[m].edited && nc[m].content.len() > 0);
            } else if m > j {
                assert(inside(nc[m + 1], e) && nc[m + 1].edited && nc[m + 1].content.len() > 0);
            } else {
                assert(inside(ch[j], s) && ch[j].edited && ch[j].content.len() > 0);
            }
        }
    }
}

/// The position of the chunk that starts at `k`.
pub open spec fn pos_start(ch: Seq<ChunkView>, k: nat) -> int {
    choose|i: int| 0 <= i < ch.len() && (#[trigger] ch[i]).start == k
}

/// The position of the chunk that ends at `k`.
pub open spec fn pos_end(ch: Seq<ChunkView>, k: nat) -> int {
    choose|i: int| 0 <= i < ch.len() && (#[trigger] ch[i]).end == k
}

/// From position `f` to position `l` the chain follows the original text
/// without a gap: nothing was moved in between.
pub open spec fn contiguous(ch: Seq<ChunkView>, f: int, l: int) -> bool {
    &&& f <= l
    &&& forall|m: int| f <= m < l ==> (#[trigger] ch[m + 1]).start == ch[m].end
}

/// `ch` with chunk `f` given content `t` and the chunks after it up to `l`
/// blanked.
pub open spec fn overwrite_chain(
    ch: Seq<ChunkView>,
    f: int,
    l: int,
    t: Seq<char>,
    store_name: bool,
    content_only: bool,
) -> Seq<ChunkView> {
    Seq::new(
        ch.len(),
        |m: int|
            if m == f {
                edit_view(ch[f], t, store_name, content_only)
            } else if f < m <= l {
                edit_view(ch[m], Seq::empty(), false, false)
            } else {
                ch[m]
            },
    )
}

/// `ch` with every chunk that starts inside `[s, e)` blanked, or given its
/// original content back when `reset`.
pub open spec fn clear_chain(ch: Seq<ChunkView>, s: nat, e: nat, reset: bool) -> Seq<ChunkView> {
    ch.map_values(
        |c: ChunkView|
            if s <= c.start < e {
                if reset {
                    reset_view(c)
                } else {
                    edit_view(c, Seq::empty(), false, false)
                }
            } else {
                c
            },
    )
}

/// `ch` with the chunks at positions `f..=l` taken out and put back in front
/// of the chunk at position `t` (at the end when `t` is the length).
pub open spec fn moved_chain(ch: Seq<ChunkView>, f: int, l: int, t: int) -> Seq<ChunkView> {
    if t > l {
        ch.take(f) + ch.subrange(l + 1, t) + ch.subrange(f, l + 1) + ch.skip(t)
    } else {
        ch.take(t) + ch.subrange(f, l + 1) + ch.subrange(t, f) + ch.skip(l + 1)
    }
}

/// Where the chunk at position `x` of the moved chain came from.
pub open spec fn moved_from(f: int, l: int, t: int, x: int) -> int {
    let b = l + 1 - f;
    if t > l {
        let m = t - (l + 1);
        if x < f {
            x
        } else if x < f + m {
            x + b
        } else if x < t {
            x - m
        } else {
            x
        }
    } else {
        if x < t {
            x
        } else if x < t + b {
            x - t + f
        } else if x <= l {
            x - b
        } else {
            x
        }
    }
}

/// Where the chunk at position `i` goes in the moved chain.
pub open spec fn moved_to(f: int, l: int, t: int, i: int) -> int {
    let b = l + 1 - f;
    if t > l {
        let m = t - (l + 1);
        if i < f {
            i
        } else if i <= l {
            i + m
        } else if i < t {
            i - b
        } else {
            i
        }
    } else {
        if i < t {
            i
        } else if i < f {
            i + b
        } else if i <= l {
            i - f + t
        } else {
            i
        }
    }
}

/// Reordering a partition keeps it a partition with the same boundaries.
pub proof fn lemma_reorder(a: Seq<ChunkView>, b: Seq<ChunkView>, orig: Seq<char>, f: int, l: int, t: int)
    requires
        partition(a, orig),
        0 <= f <= l < a.len(),
        0 <= t <= a.len(),
        t > l || t < f,
        b == moved_chain(a, f, l, t),
    ensures
        partition(b, orig),
        forall|q: nat| starts_at(b, q) == starts_at(a, q),
        forall|q: nat| ends_at(b, q) == ends_at(a, q),
{
    let n = a.len() as int;
    assert(b.len() == n);
    assert forall|x: int| 0 <= x < n implies 0 <= moved_from(f, l, t, x) < n && #[trigger] b[x] == a[moved_from(
        f,
        l,
        t,
        x,
    )] && moved_to(f, l, t, moved_from(f, l, t, x)) == x by {}
    assert forall|i: int| 0 <= i < n implies 0 <= moved_to(f, l, t, i) < n && moved_from(
        f,
        l,
        t,
        #[trigger] moved_to(f, l, t, i),
    ) == i by {}
    assert forall|i: int| 0 <= i < b.len() implies {
        &&& chunk_wf(#[trigger] b[i])
        &&& b[i].end <= orig.len()
        &&& b[i].original == orig.subrange(b[i].start as int, b[i].end as int)
        &&& orig.len() > 0 ==> b[i].start < b[i].end
    } by {
        assert(b[i] == a[moved_from(f, l, t, i)]);
    }
    assert forall|i: int, j: int|
        0 <= i < b.len() && 0 <= j < b.len() && i != j implies #[trigger] b[i].end <= #[trigger] b[j].start
            || b[j].end <= b[i].start by {
        let oi = moved_from(f, l, t, i);
        let oj = moved_from(f, l, t, j);
        assert(b[i] == a[oi]);
        assert(b[j] == a[oj]);
        assert(moved_to(f, l, t, oi) == i);
        assert(moved_to(f, l, t, oj) == j);
        assert(a[oi].end <= a[oj].start || a[oj].end <= a[oi].start);
    }
    assert forall|p: nat| p < orig.len() implies #[trigger] covers(b, p) by {
        assert(covers(a, p));
        let i = choose|i: int| 0 <= i < a.len() && #[trigger] a[i].start <= p < a[i].end;
        let x = moved_to(f, l, t, i);
        assert(moved_from(f, l, t, x) == i);
        assert(b[x] == a[i]);
    }
    assert forall|q: nat| starts_at(b, q) == starts_at(a, q) by {
        if starts_at(b, q) {
            let x = choose|x: int| 0 <= x < b.len() && #[trigger] b[x].start == q;
            assert(b[x] == a[moved_from(f, l, t, x)]);
        }
        if starts_at(a, q) {
            let i = choose|i: int| 0 <= i < a.len() && #[trigger] a[i].start == q;
            let x = moved_to(f, l, t, i);
            assert(b[x] == a[i]);
        }
    }
    assert forall|q: nat| ends_at(b, q) == ends_at(a, q) by {
        if ends_at(b, q) {
            let x = choose|x: int| 0 <= x < b.len() && #[trigger] b[x].end == q;
            assert(b[x] == a[moved_from(f, l, t, x)]);
        }
        if ends_at(a, q) {
            let i = choose|i: int| 0 <= i < a.len() && #[trigger] a[i].end == q;
            let x = moved_to(f, l, t, i);
            assert(b[x] == a[i]);
        }
    }
}

/// Trimming the chunks from position `i` on, front to back, until one stops
/// it; with whether one did.
pub open spec fn trim_start_walk(ch: Seq<ChunkView>, pat: Seq<char>, i: nat) -> (Seq<ChunkView>, bool)
    decreases ch.len() - i,
{
    if i >= ch.len() {
        (ch, false)
    } else {
        let (c, stop) = trim_start_view(ch[i as int], pat);
        let next = ch.update(i as int, c);
        if stop {
            (next, true)
        } else {
            trim_start_walk(next, pat, i + 1)
        }
    }
}

/// Trimming the first `i` chunks back to front until one stops it; with
/// whether one did.
pub open spec fn trim_end_walk(ch: Seq<ChunkView>, pat: Seq<char>, i: nat) -> (Seq<ChunkView>, bool)
    decreases i,
{
    if i == 0 || i > ch.len() {
        (ch, false)
    } else {
        let (c, stop) = trim_end_view(ch[i - 1], pat);
        let next = ch.update(i - 1, c);
        if stop {
            (next, true)
        } else {
            trim_end_walk(next, pat, (i - 1) as nat)
        }
    }
}

/// The result of planning an indentation: edited chunks already indented,
/// the offsets of unedited text that get an indent, and the flag after.
pub struct IndentPlan {
    pub chain: Seq<ChunkView>,
    pub marks: Seq<nat>,
    pub flag: bool,
}

/// The plan for the first `i` chunks in render order: an edited chunk whose
/// start is not excluded has its content indented and leaves the flag set
/// where that content ends a line; an unedited chunk contributes the offsets
/// of its original text that get an indent.
pub open spec fn indent_plan(
    ch: Seq<ChunkView>,
    orig: Seq<char>,
    excl: Seq<bool>,
    ind: Seq<char>,
    f: bool,
    i: nat,
) -> IndentPlan
    decreases i,
{
    if i == 0 || i > ch.len() {
        IndentPlan { chain: ch, marks: Seq::empty(), flag: f }
    } else {
        let pl = indent_plan(ch, orig, excl, ind, f, (i - 1) as nat);
        let c = ch[i - 1];
        if c.edited {
            if excluded(excl, c.start) {
                pl
            } else {
                let (t, g) = indent_text(c.content, ind, pl.flag);
                IndentPlan {
                    chain: pl.chain.update(i - 1, ChunkView { content: t, ..c }),
                    marks: pl.marks,
                    flag: if t.len() > 0 { t.last() == '\n' } else { g },
                }
            }
        } else {
            let (ps, g) = indent_marks(orig, excl, c.start, (c.end - c.start) as nat, pl.flag);
            IndentPlan { chain: pl.chain, marks: pl.marks + ps, flag: g }
        }
    }
}

proof fn lemma_plan_shape(ch: Seq<ChunkView>, orig: Seq<char>, excl: Seq<bool>, ind: Seq<char>, f: bool, i: nat)
    requires
        i <= ch.len(),
        forall|k: int| 0 <= k < ch.len() ==> (#[trigger] ch[k]).start <= ch[k].end <= orig.len(),
    ensures
        indent_plan(ch, orig, excl, ind, f, i).chain.len() == ch.len(),
        forall|k: int| i <= k < ch.len() ==> #[trigger] indent_plan(ch, orig, excl, ind, f, i).chain[k] == ch[k],
        forall|k: int|
            0 <= k < ch.len() ==> {
                let d = #[trigger] indent_plan(ch, orig, excl, ind, f, i).chain[k];
                &&& d.start == ch[k].start
                &&& d.end == ch[k].end
                &&& d.original == ch[k].original
                &&& d.edited == ch[k].edited
                &&& d.store_name == ch[k].store_name
                &&& (!ch[k].edited ==> d.content == ch[k].content)
            },
        forall|m: int|
            0 <= m < indent_plan(ch, orig, excl, ind, f, i).marks.len() ==> #[trigger] indent_plan(
                ch,
                orig,
                excl,
                ind,
                f,
                i,
            ).marks[m] < orig.len(),
    decreases i,
{
    if i > 0 {
        lemma_plan_shape(ch, orig, excl, ind, f, (i - 1) as nat);
        let pl = indent_plan(ch, orig, excl, ind, f, (i - 1) as nat);
        let c = ch[i - 1];
        if !c.edited {
            lemma_marks_in_range(orig, excl, c.start, (c.end - c.start) as nat, pl.flag);
            let ps = indent_marks(orig, excl, c.start, (c.end - c.start) as nat, pl.flag).0;
            let cur = indent_plan(ch, orig, excl, ind, f, i);
            assert forall|m: int| 0 <= m < cur.marks.len() implies #[trigger] cur.marks[m] < orig.len() by {
                if m >= pl.marks.len() {
                    assert(cur.marks[m] == ps[m - pl.marks.len()]);
                }
            }
        }
    }
}

/// After a cut at an offset inside the text, a chunk starts there.
pub proof fn lemma_split_starts(ch: Seq<ChunkView>, orig: Seq<char>, k: nat)
    requires
        partition(ch, orig),
        k < orig.len(),
    ensures
        starts_at(split_chain(ch, k), k),
{
    if exists|j: int| 0 <= j < ch.len() && inside(#[trigger] ch[j], k) {
        let j = choose|j: int| 0 <= j < ch.len() && inside(#[trigger] ch[j], k);
        lemma_split_partition(ch, orig, j, k);
        lemma_cut_index(ch, j, k);
        assert(split_chain(ch, k)[j + 1].start == k);
    } else {
        lemma_no_inside_bounds(ch, orig, k);
        assert(split_chain(ch, k) == ch);
    }
}

/// A cut keeps every chunk start.
pub proof fn lemma_split_keeps_starts(ch: Seq<ChunkView>, orig: Seq<char>, k: nat, q: nat)
    requires
        partition(ch, orig),
        starts_at(ch, q),
    ensures
        starts_at(split_chain(ch, k), q),
{
    if exists|j: int| 0 <= j < ch.len() && inside(#[trigger] ch[j], k) {
        let j = choose|j: int| 0 <= j < ch.len() && inside(#[trigger] ch[j], k);
        lemma_split_partition(ch, orig, j, k);
    }
}

/// Two chains whose chunks cover the same spans of the same text, position by
/// position, whatever else they hold.
pub open spec fn same_spans(a: Seq<ChunkView>, b: Seq<ChunkView>) -> bool {
    &&& a.len() == b.len()
    &&& forall|i: int|
        0 <= i < a.len() ==> {
            &&& (#[trigger] b[i]).start == a[i].start
            &&& b[i].end == a[i].end
            &&& b[i].original == a[i].original
            &&& chunk_wf(b[i])
        }
}

pub proof fn lemma_same_spans(a: Seq<ChunkView>, b: Seq<ChunkView>, orig: Seq<char>)
    requires
        partition(a, orig),
        same_spans(a, b),
    ensures
        partition(b, orig),
        forall|q: nat| starts_at(b, q) == starts_at(a, q),
        forall|q: nat| ends_at(b, q) == ends_at(a, q),
{
    assert forall|q: nat| starts_at(b, q) == starts_at(a, q) by {
        if starts_at(b, q) {
            let i = choose|i: int| 0 <= i < b.len() && #[trigger] b[i].start == q;
            assert(a[i].start == q);
        }
        if starts_at(a, q) {
            let i = choose|i: int| 0 <= i < a.len() && #[trigger] a[i].start == q;
            assert(b[i].start == q);
        }
    }
    assert forall|q: nat| ends_at(b, q) == ends_at(a, q) by {
        if ends_at(b, q) {
            let i = choose|i: int| 0 <= i < b.len() && #[trigger] b[i].end == q;
            assert(a[i].end == q);
        }
        if ends_at(a, q) {
            let i = choose|i: int| 0 <= i < a.len() && #[trigger] a[i].end == q;
            assert(b[i].end == q);
        }
    }
    assert forall|p: nat| p < orig.len() implies #[trigger] covers(b, p) by {
        assert(covers(a, p));
        let i = choose|i: int| 0 <= i < a.len() && #[trigger] a[i].start <= p < a[i].end;
        assert(b[i].start <= p < b[i].end);
    }
    assert forall|i: int, j: int|
        0 <= i < b.len() && 0 <= j < b.len() && i != j implies #[trigger] b[i].end <= #[trigger] b[j].start
            || b[j].end <= b[i].start by {
        assert(a[i].end <= a[j].start || a[j].end <= a[i].start);
    }
}

/// The chunks of an editing session in the order they render, with the set of
/// offsets where a chunk starts and where one ends.
pub struct ChunkChain {
    pub chunks: Vec<Chunk>,
    pub chunk_starts: Vec<bool>,
    pub chunk_ends: Vec<bool>,
}

impl View for ChunkChain {
    type V = Seq<ChunkView>;

    open spec fn view(&self) -> Seq<ChunkView> {
        self.chunks@.map_values(|c: Chunk| c@)
    }
}

impl ChunkChain {
    pub open spec fn wf(&self, orig: Seq<char>) -> bool {
        &&& orig.len() <= i32::MAX
        &&& partition(self@, orig)
        &&& self.chunk_starts@.len() == orig.len() + 1
        &&& self.chunk_ends@.len() == orig.len() + 1
        &&& forall|k: nat| k <= orig.len() ==> #[trigger] self.chunk_starts@[k as int] == starts_at(self@, k)
        &&& forall|k: nat| k <= orig.len() ==> #[trigger] self.chunk_ends@[k as int] == ends_at(self@, k)
    }

    /// One chunk over the whole of `original`.
    pub fn new(original: &Vec<char>) -> (r: ChunkChain)
        requires
            original@.len() <= i32::MAX,
        ensures
            r.wf(original@),
            r@ == seq![initial_view(original@)],
    {
        let n = original.len();
        let chunk = Chunk::new(0, n, sub_chars(original, 0, n));
        assert(original@.subrange(0, n as int) =~= original@);
        let mut chunks: Vec<Chunk> = Vec::new();
        chunks.push(chunk);
        let mut chunk_starts: Vec<bool> = Vec::new();
        let mut chunk_ends: Vec<bool> = Vec::new();
        let mut i: usize = 0;
        while i <= n
            invariant
                i <= n + 1,
                n == original@.len(),
                n <= i32::MAX,
                chunk_starts@.len() == i,
                chunk_ends@.len() == i,
                forall|k: int| 0 <= k < i ==> #[trigger] chunk_starts@[k] == (k == 0),
                forall|k: int| 0 <= k < i ==> #[trigger] chunk_ends@[k] == (k == n),
            decreases n + 1 - i,
        {
            chunk_starts.push(i == 0);
            chunk_ends.push(i == n);
            i = i + 1;
        }
        let r = ChunkChain { chunks, chunk_starts, chunk_ends };
        assert(r@ =~= seq![chunk@]);
        assert forall|k: nat| k <= n implies #[trigger] r.chunk_starts@[k as int] == starts_at(r@, k) by {
            if k == 0 {
                assert(r@[0].start == k);
            }
        }
        assert forall|k: nat| k <= n implies #[trigger] r.chunk_ends@[k as int] == ends_at(r@, k) by {
            if k == n {
                assert(r@[0].end == k);
            }
        }
        assert forall|p: nat| p < n implies #[trigger] covers(r@, p) by {
            assert(r@[0].start <= p < r@[0].end);
        }
        r
    }

    /// The position of the chunk that starts at `k`, if any.
    pub fn find_start(&self, k: usize) -> (r: Option<usize>)
        ensures
            r is Some ==> r->0 < self@.len() && self@[r->0 as int].start == k,
            r is None ==> !starts_at(self@, k as nat),
    {
        let mut i: usize = 0;
        while i < self.chunks.len()
            invariant
                i <= self@.len(),
                self@.len() == self.chunks@.len(),
                forall|m: int| 0 <= m < i ==> #[trigger] self@[m].start != k,
            decreases self@.len() - i,
        {
            if self.chunks[i].start == k {
                return Some(i);
            }
            i = i + 1;
        }
        None
    }

    /// The position of the chunk that ends at `k`, if any.
    pub fn find_end(&self, k: usize) -> (r: Option<usize>)
        ensures
            r is Some ==> r->0 < self@.len() && self@[r->0 as int].end == k,
            r is None ==> !ends_at(self@, k as nat),
    {
        let mut i: usize = 0;
        while i < self.chunks.len()
            invariant
                i <= self@.len(),
                self@.len() == self.chunks@.len(),
                forall|m: int| 0 <= m < i ==> #[trigger] self@[m].end != k,
            decreases self@.len() - i,
        {
            if self.chunks[i].end == k {
                return Some(i);
            }
            i = i + 1;
        }
        None
    }

    /// The position of the chunk that holds `k` strictly inside, if any.
    pub fn find_inside(&self, k: usize) -> (r: Option<usize>)
        ensures
            r is Some ==> r->0 < self@.len() && inside(self@[r->0 as int], k as nat),
            r is None ==> forall|j: int| 0 <= j < self@.len() ==> !inside(#[trigger] self@[j], k as nat),
    {
        let mut i: usize = 0;
        while i < self.chunks.len()
            invariant
                i <= self@.len(),
                self@.len() == self.chunks@.len(),
                forall|m: int| 0 <= m < i ==> !inside(#[trigger] self@[m], k as nat),
            decreases self@.len() - i,
        {
            if self.chunks[i].start < k && k < self.chunks[i].end {
                return Some(i);
            }
            i = i + 1;
        }
        None
    }

    /// A chain whose chunks were changed in place without moving a span keeps
    /// its consistency.
    pub proof fn lemma_respan(old_chain: &ChunkChain, new_chain: &ChunkChain, orig: Seq<char>)
        requires
            old_chain.wf(orig),
            same_spans(old_chain@, new_chain@),
            new_chain.chunk_starts@ == old_chain.chunk_starts@,
            new_chain.chunk_ends@ == old_chain.chunk_ends@,
        ensures
            new_chain.wf(orig),
    {
        lemma_same_spans(old_chain@, new_chain@, orig);
    }

    /// Whether `k` is a chunk boundary.
    pub fn is_boundary(&self, orig: Ghost<Seq<char>>, k: usize) -> (r: bool)
        requires
            self.wf(orig@),
            k <= orig@.len(),
        ensures
            r == (starts_at(self@, k as nat) || ends_at(self@, k as nat)),
    {
        self.chunk_starts[k] || self.chunk_ends[k]
    }

    /// Whether a cut at `k` would fall inside a frozen chunk.
    pub fn is_blocked(&self, orig: Ghost<Seq<char>>, k: usize) -> (r: bool)
        requires
            self.wf(orig@),
        ensures
            r == split_blocked(self@, k as nat),
    {
        match self.find_inside(k) {
            Some(j) => {
                let c = &self.chunks[j];
                let r = c.edited && c.content.len() > 0;
                proof {
                    lemma_unique(self@, orig@);
                    assert(self@[j as int] == self.chunks@[j as int]@);
                }
                r
            },
            None => false,
        }
    }

    /// Makes `k` a chunk boundary, cutting the chunk that holds it strictly
    /// inside; fails where that chunk was edited and still has content.
    pub fn split_at(&mut self, orig: Ghost<Seq<char>>, k: usize) -> (r: Result<(), Error>)
        requires
            old(self).wf(orig@),
            k <= orig@.len(),
        ensures
            final(self).wf(orig@),
            split_blocked(old(self)@, k as nat) ==> r is Err && r->Err_0.err_type == FmsErrType::SplitChunk
                && final(self)@ == old(self)@,
            !split_blocked(old(self)@, k as nat) ==> r is Ok && final(self)@ == split_chain(old(self)@, k as nat),
            render_chain(final(self)@) == render_chain(old(self)@),
            r is Ok ==> (k < orig@.len() || orig@.len() == 0 ==> starts_at(final(self)@, k as nat)),
            r is Ok ==> (0 < k ==> ends_at(final(self)@, k as nat)),
            forall|q: nat| starts_at(old(self)@, q) ==> starts_at(final(self)@, q),
            forall|q: nat| ends_at(old(self)@, q) ==> ends_at(final(self)@, q),
    {
        let ghost ch = self@;
        if self.is_boundary(orig, k) {
            proof {
                lemma_boundary_not_inside(ch, orig@, k as nat);
                lemma_no_inside_bounds(ch, orig@, k as nat);
            }
            return Ok(());
        }
        match self.find_inside(k) {
            None => {
                proof {
                    lemma_no_inside_bounds(ch, orig@, k as nat);
                }
                Ok(())
            },
            Some(j) => {
                proof {
                    lemma_unique(ch, orig@);
                    assert(ch[j as int] == self.chunks@[j as int]@);
                }
                if self.chunks[j].edited && self.chunks[j].content.len() > 0 {
                    return Err(Error::from_reason(
                        FmsErrType::SplitChunk,
                        "Cannot split a chunk that has already been edited",
                    ));
                }
                proof {
                    lemma_split_partition(ch, orig@, j as int, k as nat);
                }
                let mut piece = self.chunks[j].split(k);
                std::mem::swap(&mut piece, &mut self.chunks[j]);
                self.chunks.insert(j, piece);
                self.chunk_starts.set(k, true);
                self.chunk_ends.set(k, true);
                proof {
                    lemma_cut_index(ch, j as int, k as nat);
                    assert(self@ =~= cut_at(ch, j as int, k as nat));
                    assert(starts_at(self@, k as nat));
                    assert(ends_at(self@, k as nat));
                }
                Ok(())
            },
        }
    }

    /// Whether the chain follows the original text without a gap from
    /// position `f` to position `l`.
    pub fn is_contiguous(&self, f: usize, l: usize) -> (r: bool)
        requires
            f < self@.len(),
            l < self@.len(),
        ensures
            r == contiguous(self@, f as int, l as int),
    {
        if f > l {
            return false;
        }
        let mut m: usize = f;
        while m < l
            invariant
                f <= m <= l < self@.len(),
                self@.len() == self.chunks@.len(),
                forall|x: int| f <= x < m ==> (#[trigger] self@[x + 1]).start == self@[x].end,
            decreases l - m,
        {
            if self.chunks[m + 1].start != self.chunks[m].end {
                assert(self@[m + 1].start != self@[m as int].end);
                return false;
            }
            m = m + 1;
        }
        true
    }

    /// Gives chunk `f` the content `t` and blanks the chunks after it up to
    /// position `l`.
    pub fn overwrite_chunks(&mut self, f: usize, l: usize, t: &Vec<char>, store_name: bool, content_only: bool)
        requires
            f <= l < old(self)@.len(),
            forall|i: int| 0 <= i < old(self)@.len() ==> chunk_wf(#[trigger] old(self)@[i]),
        ensures
            final(self)@ == overwrite_chain(old(self)@, f as int, l as int, t@, store_name, content_only),
            same_spans(old(self)@, final(self)@),
            final(self).chunk_starts == old(self).chunk_starts,
            final(self).chunk_ends == old(self).chunk_ends,
    {
        let ghost sc = self@;
        let len = self.chunks.len();
        self.chunks[f].edit(copy_chars(t), store_name, content_only);
        let mut m: usize = f + 1;
        while m <= l
            invariant
                f < m <= l + 1,
                l < len,
                len == sc.len(),
                self.chunks@.len() == sc.len(),
                self.chunk_starts == old(self).chunk_starts,
                self.chunk_ends == old(self).chunk_ends,
                forall|x: int|
                    0 <= x < sc.len() ==> (#[trigger] self@[x]) == if x == f {
                        edit_view(sc[f as int], t@, store_name, content_only)
                    } else if f < x < m {
                        edit_view(sc[x], Seq::empty(), false, false)
                    } else {
                        sc[x]
                    },
            decreases l + 1 - m,
        {
            let ghost prev = self@;
            self.chunks[m].edit(Vec::new(), false, false);
            assert(self@ =~= prev.update(m as int, edit_view(prev[m as int], Seq::empty(), false, false)));
            m = m + 1;
        }
        assert(self@ =~= overwrite_chain(sc, f as int, l as int, t@, store_name, content_only));
    }

    /// Replaces the original range `[s, e)`: the chunk starting at `s` gets
    /// content `t` and the following chunks up to the one ending at `e` are
    /// blanked, provided both ends can be cut and the chain runs through the
    /// range without a gap.
    pub fn overwrite(
        &mut self,
        orig: Ghost<Seq<char>>,
        s: usize,
        e: usize,
        t: &Vec<char>,
        store_name: bool,
        content_only: bool,
    ) -> (r: Result<(), Error>)
        requires
            old(self).wf(orig@),
            s < e <= orig@.len(),
        ensures
            final(self).wf(orig@),
            ({
                let ch = old(self)@;
                if split_blocked(ch, s as nat) || split_blocked(ch, e as nat) {
                    &&& r is Err && r->Err_0.err_type == FmsErrType::SplitChunk
                    &&& final(self)@ == ch
                } else {
                    let sc = split_chain(split_chain(ch, s as nat), e as nat);
                    let f = pos_start(sc, s as nat);
                    let l = pos_end(sc, e as nat);
                    if !contiguous(sc, f, l) {
                        &&& r is Err && r->Err_0.err_type == FmsErrType::Overwrite
                        &&& final(self)@ == sc
                    } else {
                        &&& r is Ok
                        &&& final(self)@ == overwrite_chain(sc, f, l, t@, store_name, content_only)
                    }
                }
            }),
            r is Err ==> render_chain(final(self)@) == render_chain(old(self)@),
    {
        let ghost ch = self@;
        if self.is_blocked(orig, s) || self.is_blocked(orig, e) {
            return Err(Error::from_reason(FmsErrType::SplitChunk, "Cannot split a chunk that has already been edited"));
        }
        proof {
            lemma_blocked_after_split(ch, orig@, s as nat, e as nat);
        }
        let _ = self.split_at(orig, s);
        let _ = self.split_at(orig, e);
        let ghost sc = self@;
        let ghost before = *self;
        proof {
            lemma_unique(sc, orig@);
        }
        let f = match self.find_start(s) {
            Some(f) => f,
            None => {
                return Err(Error::from_reason(FmsErrType::Overwrite, "Cannot overwrite across a split point"));
            },
        };
        let l = match self.find_end(e) {
            Some(l) => l,
            None => {
                return Err(Error::from_reason(FmsErrType::Overwrite, "Cannot overwrite across a split point"));
            },
        };
        assert(f == pos_start(sc, s as nat));
        assert(l == pos_end(sc, e as nat));
        if !self.is_contiguous(f, l) {
            return Err(Error::from_reason(FmsErrType::Overwrite, "Cannot overwrite across a split point"));
        }
        self.overwrite_chunks(f, l, t, store_name, content_only);
        proof {
            ChunkChain::lemma_respan(&before, self, orig@);
        }
        Ok(())
    }

    /// Blanks every chunk that starts inside `[s, e)`, or gives it its
    /// original content back when `reset`.
    pub fn clear(&mut self, orig: Ghost<Seq<char>>, s: usize, e: usize, reset: bool)
        requires
            old(self).wf(orig@),
        ensures
            final(self).wf(orig@),
            final(self)@ == clear_chain(old(self)@, s as nat, e as nat, reset),
    {
        let ghost ch = self@;
        let ghost before = *self;
        let mut i: usize = 0;
        while i < self.chunks.len()
            invariant
                i <= ch.len(),
                self.chunks@.len() == ch.len(),
                self.chunk_starts == before.chunk_starts,
                self.chunk_ends == before.chunk_ends,
                before@ == ch,
                before.wf(orig@),
                forall|x: int|
                    0 <= x < ch.len() ==> (#[trigger] self@[x]) == if x < i {
                        clear_chain(ch, s as nat, e as nat, reset)[x]
                    } else {
                        ch[x]
                    },
            decreases ch.len() - i,
        {
            let ghost prev = self@;
            assert(prev[i as int] == ch[i as int]);
            assert(prev[i as int] == self.chunks@[i as int]@);
            if s <= self.chunks[i].start && self.chunks[i].start < e {
                if reset {
                    self.chunks[i].reset();
                } else {
                    self.chunks[i].edit(Vec::new(), false, false);
                }
            }
            assert(self@ =~= prev.update(i as int, clear_chain(ch, s as nat, e as nat, reset)[i as int]));
            i = i + 1;
        }
        assert(self@ =~= clear_chain(ch, s as nat, e as nat, reset));
        assert(same_spans(ch, self@));
        proof {
            ChunkChain::lemma_respan(&before, self, orig@);
        }
    }

    /// Takes the chunks at positions `f..=l` out of the chain and puts them
    /// back in front of the chunk at position `t`, or at the end when `t` is
    /// the length.
    pub fn move_block(&mut self, orig: Ghost<Seq<char>>, f: usize, l: usize, t: usize)
        requires
            old(self).wf(orig@),
            f <= l < old(self)@.len(),
            t <= old(self)@.len(),
            t > l || t < f,
        ensures
            final(self).wf(orig@),
            final(self)@ == moved_chain(old(self)@, f as int, l as int, t as int),
    {
        let ghost ch = self@;
        let ghost v = self.chunks@;
        let mut chunks: Vec<Chunk> = Vec::new();
        std::mem::swap(&mut chunks, &mut self.chunks);
        let len = chunks.len();
        assert(l < len);
        if t > l {
            let mut tail = chunks.split_off(t);
            let mut mid = chunks.split_off(l + 1);
            let mut block = chunks.split_off(f);
            chunks.append(&mut mid);
            chunks.append(&mut block);
            chunks.append(&mut tail);
            proof {
                assert(chunks@ =~= v.take(f as int) + v.subrange(l + 1, t as int) + v.subrange(f as int, l + 1) + v.skip(t as int));
            }
        } else {
            let mut tail = chunks.split_off(l + 1);
            let mut block = chunks.split_off(f);
            let mut mid = chunks.split_off(t);
            chunks.append(&mut block);
            chunks.append(&mut mid);
            chunks.append(&mut tail);
            proof {
                assert(chunks@ =~= v.take(t as int) + v.subrange(f as int, l + 1) + v.subrange(t as int, f as int) + v.skip(l + 1));
            }
        }
        self.chunks = chunks;
        proof {
            assert(self@ =~= moved_chain(ch, f as int, l as int, t as int));
            lemma_reorder(ch, self@, orig@, f as int, l as int, t as int);
        }
    }

    /// Cuts at `s`, `e` and `k`, unless one of the cuts is blocked.
    pub fn split3(&mut self, orig: Ghost<Seq<char>>, s: usize, e: usize, k: usize) -> (r: Result<(), Error>)
        requires
            old(self).wf(orig@),
            s <= orig@.len(),
            e <= orig@.len(),
            k <= orig@.len(),
        ensures
            final(self).wf(orig@),
            ({
                let ch = old(self)@;
                if split_blocked(ch, s as nat) || split_blocked(ch, e as nat) || split_blocked(ch, k as nat) {
                    r is Err && r->Err_0.err_type == FmsErrType::SplitChunk && final(self)@ == ch
                } else {
                    &&& r is Ok
                    &&& final(self)@ == split_chain(split_chain(split_chain(ch, s as nat), e as nat), k as nat)
                    &&& render_chain(final(self)@) == render_chain(ch)
                    &&& (s < orig@.len() ==> starts_at(final(self)@, s as nat))
                    &&& (0 < e ==> ends_at(final(self)@, e as nat))
                    &&& (k < orig@.len() ==> starts_at(final(self)@, k as nat))
                }
            }),
    {
        let ghost ch = self@;
        if self.is_blocked(orig, s) || self.is_blocked(orig, e) || self.is_blocked(orig, k) {
            return Err(Error::from_reason(FmsErrType::SplitChunk, "Cannot split a chunk that has already been edited"));
        }
        proof {
            lemma_blocked_after_split(ch, orig@, s as nat, e as nat);
            lemma_blocked_after_split(ch, orig@, s as nat, k as nat);
        }
        let _ = self.split_at(orig, s);
        proof {
            lemma_blocked_after_split(self@, orig@, e as nat, k as nat);
        }
        let _ = self.split_at(orig, e);
        let _ = self.split_at(orig, k);
        Ok(())
    }

    /// Cuts at `s`, `e` and `k`, then moves the chunks from the one starting
    /// at `s` to the one ending at `e` in front of the chunk starting at `k`
    /// (to the end when `k` is the end of the text).
    pub fn move_range(&mut self, orig: Ghost<Seq<char>>, s: usize, e: usize, k: usize) -> (r: Result<(), Error>)
        requires
            old(self).wf(orig@),
            s < e <= orig@.len(),
            k < s || e <= k,
            k <= orig@.len(),
        ensures
            final(self).wf(orig@),
            ({
                let n = orig@.len();
                let ch = old(self)@;
                if split_blocked(ch, s as nat) || split_blocked(ch, e as nat) || split_blocked(ch, k as nat) {
                    r is Err && r->Err_0.err_type == FmsErrType::SplitChunk && final(self)@ == ch
                } else {
                    let sc = split_chain(split_chain(split_chain(ch, s as nat), e as nat), k as nat);
                    let f = pos_start(sc, s as nat);
                    let l = pos_end(sc, e as nat);
                    let t = if k < n { pos_start(sc, k as nat) } else { sc.len() as int };
                    if f > l || (f <= t <= l) {
                        &&& r is Err && r->Err_0.err_type == FmsErrType::Range
                        &&& final(self)@ == sc
                        &&& render_chain(sc) == render_chain(ch)
                    } else {
                        r is Ok && final(self)@ == moved_chain(sc, f, l, t)
                    }
                }
            }),
    {
        let n = self.chunk_starts.len() - 1;
        match self.split3(orig, s, e, k) {
            Ok(()) => {},
            Err(err) => {
                return Err(err);
            },
        }
        let ghost sc = self@;
        proof {
            lemma_unique(sc, orig@);
        }
        let f = match self.find_start(s) {
            Some(f) => f,
            None => {
                return Err(Error::from_reason(FmsErrType::Range, "start is out of bounds"));
            },
        };
        let l = match self.find_end(e) {
            Some(l) => l,
            None => {
                return Err(Error::from_reason(FmsErrType::Range, "end is out of bounds"));
            },
        };
        let t = if k < n {
            match self.find_start(k) {
                Some(t) => t,
                None => {
                    return Err(Error::from_reason(FmsErrType::Range, "index is out of bounds"));
                },
            }
        } else {
            self.chunks.len()
        };
        assert(f == pos_start(sc, s as nat));
        assert(l == pos_end(sc, e as nat));
        if f > l || (f <= t && t <= l) {
            return Err(Error::from_reason(FmsErrType::Range, "Cannot move a selection that a previous move broke apart"));
        }
        self.move_block(orig, f, l, t);
        Ok(())
    }

    /// An independent copy of the chain.
    pub fn clone_chain(&self, orig: Ghost<Seq<char>>) -> (r: ChunkChain)
        requires
            self.wf(orig@),
        ensures
            r.wf(orig@),
            r@ == self@,
    {
        let mut chunks: Vec<Chunk> = Vec::new();
        let mut i: usize = 0;
        while i < self.chunks.len()
            invariant
                i <= self@.len(),
                self@.len() == self.chunks@.len(),
                chunks@.len() == i,
                forall|m: int| 0 <= m < i ==> (#[trigger] chunks@[m])@ == self@[m],
            decreases self@.len() - i,
        {
            chunks.push(self.chunks[i].self_clone());
            i = i + 1;
        }
        let r = ChunkChain {
            chunks,
            chunk_starts: copy_bools(&self.chunk_starts),
            chunk_ends: copy_bools(&self.chunk_ends),
        };
        assert(r@ =~= self@);
        r
    }

    /// Trims chunks front to back with `pattern` until one stops it.
    pub fn trim_start_chunks(&mut self, orig: Ghost<Seq<char>>, re: &CompiledRegex) -> (r: bool)
        requires
            old(self).wf(orig@),
        ensures
            final(self).wf(orig@),
            (final(self)@, r) == trim_start_walk(old(self)@, re.pattern(), 0),
    {
        let ghost before = *self;
        let ghost target = trim_start_walk(self@, re.pattern(), 0);
        let mut i: usize = 0;
        while i < self.chunks.len()
            invariant
                i <= self@.len(),
                self@.len() == self.chunks@.len(),
                before.wf(orig@),
                                same_spans(before@, self@),
                self.chunk_starts == before.chunk_starts,
                self.chunk_ends == before.chunk_ends,
                trim_start_walk(self@, re.pattern(), i as nat) == target,
                target == trim_start_walk(old(self)@, re.pattern(), 0),
            decreases self@.len() - i,
        {
            let ghost prev = self@;
            let stop = self.chunks[i].trim_start(re);
            assert(self@ =~= prev.update(i as int, trim_start_view(prev[i as int], re.pattern()).0));
            assert(stop == trim_start_view(prev[i as int], re.pattern()).1);
            assert(trim_start_walk(prev, re.pattern(), i as nat) == if stop {
                (self@, true)
            } else {
                trim_start_walk(self@, re.pattern(), (i + 1) as nat)
            });
            if stop {
                proof {
                    ChunkChain::lemma_respan(&before, self, orig@);
                }
                return true;
            }
            i = i + 1;
        }
        proof {
            ChunkChain::lemma_respan(&before, self, orig@);
        }
        false
    }

    /// Trims chunks back to front with `pattern` until one stops it.
    pub fn trim_end_chunks(&mut self, orig: Ghost<Seq<char>>, re: &CompiledRegex) -> (r: bool)
        requires
            old(self).wf(orig@),
        ensures
            final(self).wf(orig@),
            (final(self)@, r) == trim_end_walk(old(self)@, re.pattern(), old(self)@.len()),
    {
        let ghost before = *self;
        let ghost target = trim_end_walk(self@, re.pattern(), self@.len());
        let mut i: usize = self.chunks.len();
        while i > 0
            invariant
                i <= self@.len(),
                self@.len() == self.chunks@.len(),
                before.wf(orig@),
                                same_spans(before@, self@),
                self.chunk_starts == before.chunk_starts,
                self.chunk_ends == before.chunk_ends,
                trim_end_walk(self@, re.pattern(), i as nat) == target,
                target == trim_end_walk(old(self)@, re.pattern(), old(self)@.len()),
            decreases i,
        {
            let ghost prev = self@;
            let stop = self.chunks[i - 1].trim_end(re);
            assert(self@ =~= prev.update(i - 1, trim_end_view(prev[i - 1], re.pattern()).0));
            assert(stop == trim_end_view(prev[i - 1], re.pattern()).1);
            assert(trim_end_walk(prev, re.pattern(), i as nat) == if stop {
                (self@, true)
            } else {
                trim_end_walk(self@, re.pattern(), (i - 1) as nat)
            });
            if stop {
                proof {
                    ChunkChain::lemma_respan(&before, self, orig@);
                }
                return true;
            }
            i = i - 1;
        }
        proof {
            ChunkChain::lemma_respan(&before, self, orig@);
        }
        false
    }

    /// Indents the content of edited chunks and collects the offsets of
    /// unedited text that get an indent.
    pub fn plan_indent(&mut self, orig: &Vec<char>, excl: &Vec<bool>, ind: &Vec<char>, f: bool) -> (r: (
        Vec<usize>,
        bool,
    ))
        requires
            old(self).wf(orig@),
        ensures
            final(self).wf(orig@),
            final(self)@ == indent_plan(old(self)@, orig@, excl@, ind@, f, old(self)@.len()).chain,
            r.0@.map_values(|p: usize| p as nat) == indent_plan(old(self)@, orig@, excl@, ind@, f, old(self)@.len()).marks,
            r.1 == indent_plan(old(self)@, orig@, excl@, ind@, f, old(self)@.len()).flag,
            forall|m: int| 0 <= m < r.0@.len() ==> (#[trigger] r.0@[m]) < orig@.len(),
    {
        let ghost ch = self@;
        let ghost before = *self;
        proof {
            lemma_plan_shape(ch, orig@, excl@, ind@, f, ch.len());
        }
        let mut marks: Vec<usize> = Vec::new();
        let mut flag = f;
        let mut i: usize = 0;
        while i < self.chunks.len()
            invariant
                i <= ch.len(),
                ch.len() == self.chunks@.len(),
                before@ == ch,
                before.wf(orig@),
                self.chunk_starts == before.chunk_starts,
                self.chunk_ends == before.chunk_ends,
                self@ == indent_plan(ch, orig@, excl@, ind@, f, i as nat).chain,
                marks@.map_values(|p: usize| p as nat) == indent_plan(ch, orig@, excl@, ind@, f, i as nat).marks,
                flag == indent_plan(ch, orig@, excl@, ind@, f, i as nat).flag,
            decreases ch.len() - i,
        {
            proof {
                lemma_plan_shape(ch, orig@, excl@, ind@, f, i as nat);
                lemma_plan_shape(ch, orig@, excl@, ind@, f, (i + 1) as nat);
            }
            let ghost c = ch[i as int];
            assert(self@[i as int] == c);
            assert(self.chunks@[i as int]@ == c);
            let start = self.chunks[i].start;
            if self.chunks[i].edited {
                let ex = start < excl.len() && excl[start];
                if !ex {
                    let (t, g) = indent_chars(&self.chunks[i].content, ind, flag);
                    let ghost prev = self@;
                    flag = if t.len() > 0 {
                        t[t.len() - 1] == '\n'
                    } else {
                        g
                    };
                    self.chunks[i].set_content(t);
                    assert(self@ =~= prev.update(i as int, ChunkView { content: indent_text(c.content, ind@, indent_plan(ch, orig@, excl@, ind@, f, i as nat).flag).0, ..c }));
                }
            } else {
                let end = self.chunks[i].end;
                assert(chunk_wf(c));
                let (ps, g) = mark_indents(orig, excl, start, end, flag);
                let ghost m0 = marks@.map_values(|p: usize| p as nat);
                let mut k: usize = 0;
                while k < ps.len()
                    invariant
                        k <= ps@.len(),
                        marks@.map_values(|p: usize| p as nat) == m0 + ps@.map_values(|p: usize| p as nat).take(k as int),
                    decreases ps@.len() - k,
                {
                    marks.push(ps[k]);
                    assert(ps@.map_values(|p: usize| p as nat).take(k + 1) =~= ps@.map_values(|p: usize| p as nat).take(k as int).push(ps@[k as int] as nat));
                    assert(marks@.map_values(|p: usize| p as nat) =~= (m0 + ps@.map_values(|p: usize| p as nat).take(k as int)).push(ps@[k as int] as nat));
                    k = k + 1;
                }
                assert(ps@.map_values(|p: usize| p as nat).take(k as int) =~= ps@.map_values(|p: usize| p as nat));
                flag = g;
            }
            i = i + 1;
        }
        proof {
            lemma_plan_shape(ch, orig@, excl@, ind@, f, ch.len());
            assert(same_spans(ch, self@));
            ChunkChain::lemma_respan(&before, self, orig@);
            let mv = marks@.map_values(|p: usize| p as nat);
            assert forall|m: int| 0 <= m < marks@.len() implies (#[trigger] marks@[m]) < orig@.len() by {
                assert(mv[m] == marks@[m] as nat);
            }
        }
        (marks, flag)
    }
}

} // verus!
