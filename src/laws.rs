use vstd::prelude::*;

use crate::chain::{
    contiguous, covers, ends_at, inside, lemma_boundary_not_inside, lemma_split_keeps_starts, lemma_split_partition,
    lemma_split_starts, lemma_unique, overwrite_chain, partition, pos_end, pos_start, render_chain, split_blocked,
    split_chain, starts_at,
};
use crate::chunk::{ChunkView, edit_view, render_chunk};
use crate::error::FmsErrType;
use crate::magic_string::{MagicString, cleared, inserted, overwrite_outcome, overwritten, session_mappings};
use crate::mappings::raw_deltas;
use crate::sourcemap::mappings_text;
use crate::utils::{count_lines, guessed_indent, normalized};

verus! {

/// A session on which nothing was done yet, as far as its output goes: no
/// wrapper text, every chunk unedited with nothing glued to it, and the
/// chunks in the order of the original text.
pub open spec fn untouched(ms: &MagicString) -> bool {
    let ch = ms.chain@;
    &&& ms.intro@.len() == 0
    &&& ms.outro@.len() == 0
    &&& ch[0].start == 0
    &&& forall|i: int|
        0 <= i < ch.len() ==> !(#[trigger] ch[i]).edited && ch[i].intro.len() == 0 && ch[i].outro.len() == 0
    &&& forall|i: int| 0 <= i < ch.len() - 1 ==> (#[trigger] ch[i + 1]).start == ch[i].end
}

proof fn lemma_prefix_renders(ch: Seq<ChunkView>, orig: Seq<char>, k: nat)
    requires
        partition(ch, orig),
        1 <= k <= ch.len(),
        ch[0].start == 0,
        forall|i: int|
            0 <= i < ch.len() ==> !(#[trigger] ch[i]).edited && ch[i].intro.len() == 0 && ch[i].outro.len() == 0,
        forall|i: int| 0 <= i < ch.len() - 1 ==> (#[trigger] ch[i + 1]).start == ch[i].end,
    ensures
        render_chain(ch.take(k as int)) == orig.subrange(0, ch[k - 1].end as int),
    decreases k,
{
    let c = ch[k - 1];
    assert(ch.take(k as int).drop_last() =~= ch.take(k - 1));
    assert(ch.take(k as int).last() == c);
    assert(render_chunk(c) =~= c.original);
    if k == 1 {
        assert(ch.take(0) =~= Seq::<ChunkView>::empty());
        assert(render_chain(Seq::<ChunkView>::empty()) =~= Seq::<char>::empty());
        assert(render_chain(ch.take(1)) =~= c.original);
    } else {
        lemma_prefix_renders(ch, orig, (k - 1) as nat);
        let i: int = k - 2;
        assert(ch[i + 1].start == ch[i].end);
        assert(i + 1 == k - 1);
        assert(orig.subrange(0, ch[k - 2].end as int) + c.original =~= orig.subrange(0, c.end as int));
    }
}

/// Coverage: the chunks of a consistent session cover the original text,
/// and where nothing was done to it, the session renders the original text
/// exactly.
pub proof fn law_untouched_renders_original(ms: &MagicString)
    requires
        ms.wf(),
        untouched(ms),
    ensures
        forall|p: nat| p < ms.original@.len() ==> #[trigger] covers(ms.chain@, p),
        ms.rendered() == ms.original@,
{
    let ch = ms.chain@;
    let orig = ms.original@;
    let n = ch.len();
    lemma_prefix_renders(ch, orig, n as nat);
    assert(ch.take(n as int) =~= ch);
    // the last chunk in order reaches the end of the text
    assert forall|i: int| 0 <= i < n implies (#[trigger] ch[i]).end <= ch[n - 1].end by {
        lemma_ends_grow(ch, i, n - 1);
    }
    if ch[n - 1].end < orig.len() {
        let p = ch[n - 1].end;
        assert(covers(ch, p));
        let i = choose|i: int| 0 <= i < ch.len() && #[trigger] ch[i].start <= p < ch[i].end;
        assert(ch[i].end <= ch[n - 1].end);
    }
    assert(orig.subrange(0, ch[n - 1].end as int) =~= orig);
    assert(ms.rendered() =~= orig);
}

proof fn lemma_ends_grow(ch: Seq<ChunkView>, i: int, j: int)
    requires
        0 <= i <= j < ch.len(),
        forall|m: int| 0 <= m < ch.len() ==> (#[trigger] ch[m]).start <= ch[m].end,
        forall|m: int| 0 <= m < ch.len() - 1 ==> (#[trigger] ch[m + 1]).start == ch[m].end,
    ensures
        ch[i].end <= ch[j].end,
    decreases j - i,
{
    if i < j {
        lemma_ends_grow(ch, i + 1, j);
        assert(ch[i + 1].start == ch[i].end);
    }
}

/// Whether `[start, end)` is a valid, empty range of a text of length `n`.
pub open spec fn empty_range(n: nat, start: int, end: int) -> bool {
    match normalized(n, start, end) {
        Some((s, e)) => s == e,
        None => false,
    }
}

/// Removing an empty range changes nothing.
pub proof fn law_remove_empty_range(a: &MagicString, b: &MagicString, r: Result<(), crate::error::Error>, start: int, end: int)
    requires
        a.wf(),
        cleared(a, b, r, start, end, false),
        empty_range(a.original@.len(), start, end),
    ensures
        r is Ok,
        b.chain@ == a.chain@,
        b.rendered() == a.rendered(),
        b.names() == a.names(),
{
}

/// Overwriting an empty range fails with a range error and changes nothing.
pub proof fn law_overwrite_empty_range(
    a: &MagicString,
    b: &MagicString,
    r: Result<(), crate::error::Error>,
    start: int,
    end: int,
    t: Seq<char>,
    store_name: bool,
    content_only: bool,
)
    requires
        a.wf(),
        overwritten(a, b, r, start, end, t, store_name, content_only),
        empty_range(a.original@.len(), start, end),
    ensures
        r is Err && r->Err_0.err_type == FmsErrType::Range,
        b.chain@ == a.chain@,
        b.rendered() == a.rendered(),
        b.names() == a.names(),
{
}

/// The chunk that starts at the beginning of an overwritten range holds the
/// new content.
pub open spec fn edited_chunk(b: &MagicString, s: nat) -> ChunkView {
    b.chain@[pos_start(b.chain@, s)]
}

proof fn lemma_overwrite_first(a: &MagicString, b: &MagicString, r: Result<(), crate::error::Error>, s: nat, e: nat, t: Seq<char>)
    requires
        a.wf(),
        overwritten(a, b, r, s as int, e as int, t, false, false),
        r is Ok,
        s < e <= a.original@.len(),
    ensures
        0 <= pos_start(b.chain@, s) < b.chain@.len(),
        edited_chunk(b, s).start == s,
        edited_chunk(b, s).edited,
        edited_chunk(b, s).content == t,
{
    let orig = a.original@;
    let ch = a.chain@;
    assert(normalized(orig.len(), s as int, e as int) == Some((s, e)));
    let x = overwrite_outcome(ch, a.names(), orig, s, e, t, false, false);
    assert(x.error is None);
    let s1 = split_chain(ch, s);
    let sc = split_chain(s1, e);
    lemma_split_starts(ch, orig, s);
    assert(!split_blocked(ch, s));
    crate::chain::lemma_blocked_after_split(ch, orig, s, e);
    if exists|j: int| 0 <= j < ch.len() && inside(#[trigger] ch[j], s) {
        let j = choose|j: int| 0 <= j < ch.len() && inside(#[trigger] ch[j], s);
        lemma_split_partition(ch, orig, j, s);
    }
    assert(partition(s1, orig));
    lemma_split_keeps_starts(s1, orig, e, s);
    let f = pos_start(sc, s);
    let l = pos_end(sc, e);
    assert(contiguous(sc, f, l));
    assert(b.chain@ == overwrite_chain(sc, f, l, t, false, false));
    assert(b.chain@[f] == edit_view(sc[f], t, false, false));
    assert(b.chain@[f].start == s);
    lemma_unique(b.chain@, b.original@);
    assert(starts_at(b.chain@, s));
    assert(pos_start(b.chain@, s) == f);
}

/// Split freeze: once a range is overwritten with some text, inserting
/// strictly inside the chunk that holds that text fails with a split error,
/// while inserting at either end of that chunk succeeds.
pub proof fn law_split_freeze(
    a: &MagicString,
    b: &MagicString,
    r: Result<(), crate::error::Error>,
    s: nat,
    e: nat,
    t: Seq<char>,
    c: &MagicString,
    r2: Result<(), crate::error::Error>,
    k: nat,
    t2: Seq<char>,
    right: bool,
    front: bool,
)
    requires
        a.wf(),
        overwritten(a, b, r, s as int, e as int, t, false, false),
        r is Ok,
        t.len() > 0,
        s < e <= a.original@.len(),
        inserted(b, c, r2, k, t2, right, front),
        k == s || k == edited_chunk(b, s).end || (edited_chunk(b, s).start < k < edited_chunk(b, s).end),
    ensures
        edited_chunk(b, s).start < k < edited_chunk(b, s).end ==> r2 is Err && r2->Err_0.err_type == FmsErrType::SplitChunk,
        k == s || k == edited_chunk(b, s).end ==> r2 is Ok,
{
    lemma_overwrite_first(a, b, r, s, e, t);
    let ch = b.chain@;
    let orig = b.original@;
    assert(partition(ch, orig));
    let f = pos_start(ch, s);
    let cf = ch[f];
    assert(cf.end <= orig.len());
    assert(starts_at(ch, s));
    if cf.start < k && k < cf.end {
        assert(inside(cf, k));
        assert(split_blocked(ch, k));
    }
    if k == s {
        lemma_boundary_not_inside(ch, orig, k);
    }
    if k == cf.end {
        assert(ends_at(ch, k));
        lemma_boundary_not_inside(ch, orig, k);
    }
}

/// Without a line that starts with a tab or with two spaces, the guessed
/// indent is a tab.
pub proof fn law_indent_defaults_to_tab(s: Seq<char>)
    requires
        count_lines(s, s.len(), true) == 0,
        count_lines(s, s.len(), false) == 0,
    ensures
        guessed_indent(s) == seq!['\t'],
{
}

/// Mapping determinism: two sessions in the same state produce the same
/// mappings string.
pub proof fn law_mappings_deterministic(a: &MagicString, b: &MagicString, hires: bool)
    requires
        a.original@ == b.original@,
        a.intro@ == b.intro@,
        a.outro@ == b.outro@,
        a.chain@ == b.chain@,
        a.names() == b.names(),
        a.sourcemap_locations@ == b.sourcemap_locations@,
    ensures
        mappings_text(raw_deltas(session_mappings(a, hires).raw)) == mappings_text(
            raw_deltas(session_mappings(b, hires).raw),
        ),
{
}

} // verus!
