use vstd::prelude::*;

use crate::chain::{
    indent_plan, lemma_split_starts,
    trim_start_walk, trim_end_walk,
    moved_chain,
    clear_chain,
    pos_start, pos_end,
    contiguous, overwrite_chain,
    lemma_blocked_after_split,
    covers,
    ChunkChain, ends_at, lemma_render_concat, lemma_unique, partition,
    render_chain, same_spans, split_blocked, split_chain, starts_at,
};
use crate::chunk::{ChunkView, chunk_wf, initial_view};
use crate::error::{Error, FmsErrType};
use crate::utils::{is_white_space, white_space, guess_indent, guessed_indent, normalize, normalized};
use crate::indent::{build_exclusions, exclusion_table, indent_chars, indent_text};
use crate::pattern::{RegexMatch, compile_regex, expand_from, expand_replacement, match_all, regex_compiles, regex_matches, regex_replaced, strip_match};
use crate::locator::{Locator, lemma_location_bound, location};
use crate::mappings::{MapState, MappingsFacade, POSITION_LIMIT, advance_text, chunk_mappings, mappings_view, raw_bounded, raw_deltas};
use crate::path::{get_relative_path, file_name, last_part, relative_path};
use crate::sourcemap::{DecodedMap, SOURCEMAP_VERSION, SourceMap, fits_vlq, mappings_text};
use crate::text::{find_chars, find_from, lemma_find_from_bound, copy_bools, sub_chars, chars_of, concat_chars, copy_chars, push_chars, same_chars, string_of};

verus! {

/// Options for building a source map.
pub struct GenerateMapOptions {
    pub file: Option<String>,
    pub source: Option<String>,
    pub source_root: Option<String>,
    pub include_content: Option<bool>,
    pub hires: Option<bool>,
}

impl Default for GenerateMapOptions {
    fn default() -> (r: Self)
        ensures
            r.file is None,
            r.source is Some && r.source->0@.len() == 0,
            r.source_root is None,
            r.include_content == Some(false),
            r.hires == Some(false),
    {
        GenerateMapOptions {
            file: None,
            source: Some(String::new()),
            source_root: None,
            include_content: Some(false),
            hires: Some(false),
        }
    }
}

/// Options for replacing a range.
pub struct OverwriteOptions {
    pub content_only: Option<bool>,
    pub store_name: Option<bool>,
    pub overwrite: Option<bool>,
}

impl Default for OverwriteOptions {
    fn default() -> (r: Self)
        ensures
            r.content_only == Some(false),
            r.store_name == Some(false),
            r.overwrite == Some(false),
    {
        OverwriteOptions { content_only: Some(false), store_name: Some(false), overwrite: Some(false) }
    }
}

/// Ranges of the original text that indentation leaves alone, as one pair or
/// as a list of pairs.
pub enum IndentExclusionRanges {
    Single(Vec<u32>),
    Nested(Vec<Vec<u32>>),
}

/// Options for a new editing session.
pub struct MagicStringOptions {
    pub filename: Option<String>,
    pub indent_exclusion_ranges: Option<IndentExclusionRanges>,
    pub ignore_list: Option<bool>,
}

impl Default for MagicStringOptions {
    fn default() -> (r: Self)
        ensures
            r.filename is Some && r.filename->0@.len() == 0,
            r.indent_exclusion_ranges is None,
            r.ignore_list == Some(false),
    {
        MagicStringOptions { filename: Some(String::new()), indent_exclusion_ranges: None, ignore_list: Some(false) }
    }
}

/// Options for indenting.
pub struct IndentOptions {
    pub exclude: Option<Vec<Vec<u32>>>,
    pub indent_start: Option<bool>,
}

impl Default for IndentOptions {
    fn default() -> (r: Self)
        ensures
            r.exclude is None,
            r.indent_start is None,
    {
        IndentOptions { exclude: None, indent_start: None }
    }
}

/// `ch` with `t` glued to the text after the chunk that ends at `k`
/// (in front of what is there when `front`).
pub open spec fn glue_left(ch: Seq<ChunkView>, k: nat, t: Seq<char>, front: bool) -> Seq<ChunkView> {
    ch.map_values(
        |c: ChunkView|
            if c.end == k {
                ChunkView { outro: if front { t + c.outro } else { c.outro + t }, ..c }
            } else {
                c
            },
    )
}

/// `ch` with `t` glued to the text before the chunk that starts at `k`
/// (in front of what is there when `front`).
pub open spec fn glue_right(ch: Seq<ChunkView>, k: nat, t: Seq<char>, front: bool) -> Seq<ChunkView> {
    ch.map_values(
        |c: ChunkView|
            if c.start == k {
                ChunkView { intro: if front { t + c.intro } else { c.intro + t }, ..c }
            } else {
                c
            },
    )
}

/// What inserting `t` at offset `k` does: glued to what ends there
/// (`right == false`) or to what starts there (`right == true`), after what is
/// glued there already or in front of it (`front`). Past the end of the text,
/// or where no chunk ends or starts at `k`, the text goes to the front
/// wrapper.
pub open spec fn inserted(
    old: &MagicString,
    new: &MagicString,
    r: Result<(), Error>,
    k: nat,
    t: Seq<char>,
    right: bool,
    front: bool,
) -> bool {
    let n = old.original@.len();
    let ch = old.chain@;
    &&& new.wf()
    &&& new.same_setup(old)
    &&& new.outro@ == old.outro@
    &&& new.names() == old.names()
    &&& if k > n {
        &&& r is Ok
        &&& new.chain@ == ch
        &&& new.intro@ == old.intro@ + t
    } else if split_blocked(ch, k) {
        &&& r is Err && r->Err_0.err_type == FmsErrType::SplitChunk
        &&& new.chain@ == ch
        &&& new.intro@ == old.intro@
    } else {
        let sc = split_chain(ch, k);
        let found = if right {
            starts_at(sc, k)
        } else {
            ends_at(sc, k)
        };
        &&& r is Ok
        &&& new.chain@ == if right {
            glue_right(sc, k, t, front)
        } else {
            glue_left(sc, k, t, front)
        }
        &&& new.intro@ == if found {
            old.intro@
        } else {
            old.intro@ + t
        }
    }
}

pub open spec fn holds(c: ChunkView, p: nat) -> bool {
    c.start <= p < c.end
}

pub open spec fn holds_end(c: ChunkView, e: nat) -> bool {
    c.start < e <= c.end
}

/// The position of the chunk that holds offset `p`.
pub open spec fn chunk_at(ch: Seq<ChunkView>, p: nat) -> int {
    choose|i: int| 0 <= i < ch.len() && holds(#[trigger] ch[i], p)
}

/// The position of the chunk that holds the character just before `e`.
pub open spec fn chunk_ending(ch: Seq<ChunkView>, e: nat) -> int {
    choose|i: int| 0 <= i < ch.len() && holds_end(#[trigger] ch[i], e)
}

/// What chunk `c` contributes to the slice `[s, e)`: the part of its content
/// inside the range, with the text glued before it only where `c` is not the
/// first chunk or starts at `s`, and the text glued after it only where `c`
/// is not the last chunk or ends at `e`.
pub open spec fn slice_piece(c: ChunkView, first: bool, last: bool, s: nat, e: nat) -> Seq<char> {
    let lo: int = if first { s - c.start } else { 0 };
    let hi: int = if last { c.content.len() + e - c.end } else { c.content.len() as int };
    (if !first || c.start == s { c.intro } else { Seq::empty() }) + c.content.subrange(lo, hi) + (if !last
        || c.end == e { c.outro } else { Seq::empty() })
}

/// The pieces of the `cnt` chunks from position `i` on, for a slice whose
/// last chunk is at `j`.
pub open spec fn slice_run(ch: Seq<ChunkView>, i: int, cnt: nat, j: int, s: nat, e: nat) -> Seq<char>
    decreases cnt,
{
    if cnt == 0 {
        Seq::empty()
    } else {
        let m = i + cnt - 1;
        slice_run(ch, i, (cnt - 1) as nat, j, s, e) + slice_piece(ch[m], m == i, m == j, s, e)
    }
}

/// The rendered text of `[s, e)` of a chain, walked in render order from the
/// chunk holding `s` to the chunk holding the end; `None` where an end of the
/// range falls inside replaced content.
pub open spec fn slice_of(ch: Seq<ChunkView>, s: nat, e: nat) -> Option<Seq<char>> {
    if s >= e {
        Some(Seq::empty())
    } else {
        let i = chunk_at(ch, s);
        let j = chunk_ending(ch, e);
        if j < i {
            Some(Seq::empty())
        } else if (ch[i].edited && ch[i].start != s) || (ch[j].edited && ch[j].end != e) {
            None
        } else {
            Some(slice_run(ch, i, (j - i + 1) as nat, j, s, e))
        }
    }
}

proof fn lemma_holds_unique(ch: Seq<ChunkView>, orig: Seq<char>, s: nat, e: nat)
    requires
        partition(ch, orig),
        s < e <= orig.len(),
    ensures
        0 <= chunk_at(ch, s) < ch.len(),
        holds(ch[chunk_at(ch, s)], s),
        forall|i: int| 0 <= i < ch.len() && holds(#[trigger] ch[i], s) ==> i == chunk_at(ch, s),
        0 <= chunk_ending(ch, e) < ch.len(),
        holds_end(ch[chunk_ending(ch, e)], e),
        forall|i: int| 0 <= i < ch.len() && holds_end(#[trigger] ch[i], e) ==> i == chunk_ending(ch, e),
{
    assert(covers(ch, s));
    let p = (e - 1) as nat;
    assert(covers(ch, p));
    let m = choose|m: int| 0 <= m < ch.len() && #[trigger] ch[m].start <= p < ch[m].end;
    assert(holds_end(ch[m], e));
    assert forall|i: int| 0 <= i < ch.len() && holds(#[trigger] ch[i], s) implies i == chunk_at(ch, s) by {
        let a = chunk_at(ch, s);
        if i != a {
            assert(ch[i].end <= ch[a].start || ch[a].end <= ch[i].start);
        }
    }
    assert forall|i: int| 0 <= i < ch.len() && holds_end(#[trigger] ch[i], e) implies i == chunk_ending(ch, e) by {
        let a = chunk_ending(ch, e);
        if i != a {
            assert(ch[i].end <= ch[a].start || ch[a].end <= ch[i].start);
        }
    }
}

/// The chain, the stored names and the failure, if any, after replacing the
/// original range `[s, e)` by `t`.
pub struct EditOutcome {
    pub chain: Seq<ChunkView>,
    pub names: Seq<Seq<char>>,
    pub error: Option<FmsErrType>,
}

pub open spec fn overwrite_outcome(
    ch: Seq<ChunkView>,
    names: Seq<Seq<char>>,
    orig: Seq<char>,
    s: nat,
    e: nat,
    t: Seq<char>,
    store_name: bool,
    content_only: bool,
) -> EditOutcome {
    if s >= e {
        EditOutcome { chain: ch, names, error: Some(FmsErrType::Range) }
    } else if split_blocked(ch, s) || split_blocked(ch, e) {
        EditOutcome { chain: ch, names, error: Some(FmsErrType::SplitChunk) }
    } else {
        let sc = split_chain(split_chain(ch, s), e);
        let f = pos_start(sc, s);
        let l = pos_end(sc, e);
        if !contiguous(sc, f, l) {
            EditOutcome { chain: sc, names, error: Some(FmsErrType::Overwrite) }
        } else {
            EditOutcome {
                chain: overwrite_chain(sc, f, l, t, store_name, content_only),
                names: if store_name {
                    names.push(orig.subrange(s as int, e as int))
                } else {
                    names
                },
                error: None,
            }
        }
    }
}

/// What replacing the range `[start, end)` (negative offsets counted from
/// the end) by `t` does.
pub open spec fn overwritten(
    old: &MagicString,
    new: &MagicString,
    r: Result<(), Error>,
    start: int,
    end: int,
    t: Seq<char>,
    store_name: bool,
    content_only: bool,
) -> bool {
    &&& new.wf()
    &&& new.same_setup(old)
    &&& new.intro@ == old.intro@
    &&& new.outro@ == old.outro@
    &&& match normalized(old.original@.len(), start, end) {
        None => {
            &&& r is Err && r->Err_0.err_type == FmsErrType::Range
            &&& new.chain@ == old.chain@
            &&& new.names() == old.names()
        },
        Some((s, e)) => {
            let x = overwrite_outcome(old.chain@, old.names(), old.original@, s, e, t, store_name, content_only);
            &&& new.chain@ == x.chain
            &&& new.names() == x.names
            &&& (r is Ok <==> x.error is None)
            &&& (r is Err ==> r->Err_0.err_type == x.error->0)
            &&& (r is Err ==> render_chain(new.chain@) == render_chain(old.chain@))
        },
    }
}

/// A chain after an operation, and the failure, if any.
pub struct ChainOutcome {
    pub chain: Seq<ChunkView>,
    pub error: Option<FmsErrType>,
}

/// The chain after blanking (or, when `reset`, restoring) the original range
/// `[start, end)` of a text of length `n`.
pub open spec fn clear_outcome(ch: Seq<ChunkView>, n: nat, start: int, end: int, reset: bool) -> ChainOutcome {
    match normalized(n, start, end) {
        None => ChainOutcome { chain: ch, error: Some(FmsErrType::Range) },
        Some((s, e)) => if s >= e {
            ChainOutcome { chain: ch, error: None }
        } else if split_blocked(ch, s) || split_blocked(ch, e) {
            ChainOutcome { chain: ch, error: Some(FmsErrType::SplitChunk) }
        } else {
            ChainOutcome { chain: clear_chain(split_chain(split_chain(ch, s), e), s, e, reset), error: None }
        },
    }
}

/// What blanking (or, when `reset`, restoring) the original range
/// `[start, end)` does.
pub open spec fn cleared(old: &MagicString, new: &MagicString, r: Result<(), Error>, start: int, end: int, reset: bool) -> bool {
    let x = clear_outcome(old.chain@, old.original@.len(), start, end, reset);
    &&& new.wf()
    &&& new.same_setup(old)
    &&& new.intro@ == old.intro@
    &&& new.outro@ == old.outro@
    &&& new.names() == old.names()
    &&& new.chain@ == x.chain
    &&& (r is Ok <==> x.error is None)
    &&& (r is Err ==> r->Err_0.err_type == x.error->0)
}

/// The outcome of replacing, from position `from` on, each occurrence of
/// `pat` in the original text by `t`, left to right; it stops at the first
/// failure.
pub open spec fn replace_all_outcome(
    ch: Seq<ChunkView>,
    names: Seq<Seq<char>>,
    orig: Seq<char>,
    pat: Seq<char>,
    t: Seq<char>,
    from: nat,
) -> EditOutcome
    decreases orig.len() + 1 - from,
{
    match find_from(orig, pat, from) {
        None => EditOutcome { chain: ch, names, error: None },
        Some(i) => {
            let x = overwrite_outcome(ch, names, orig, i, i + pat.len(), t, false, false);
            if x.error is Some || pat.len() == 0 || i < from || i + pat.len() > orig.len() {
                x
            } else {
                replace_all_outcome(x.chain, x.names, orig, pat, t, i + pat.len())
            }
        },
    }
}

/// The outcome of overwriting the matches from the `k`-th on, each with the
/// replacement expanded against it; it stops at the first failure.
pub open spec fn regexp_outcome(
    ch: Seq<ChunkView>,
    names: Seq<Seq<char>>,
    orig: Seq<char>,
    ms: Seq<RegexMatch>,
    rep: Seq<char>,
    k: nat,
) -> EditOutcome
    decreases ms.len() - k,
{
    if k >= ms.len() {
        EditOutcome { chain: ch, names, error: None }
    } else {
        let m = ms[k as int];
        let x = if m.start > orig.len() || m.end > orig.len() {
            EditOutcome { chain: ch, names, error: Some(FmsErrType::Range) }
        } else {
            overwrite_outcome(ch, names, orig, m.start, m.end, expand_from(rep, m.groups, 0), false, false)
        };
        if x.error is Some {
            x
        } else {
            regexp_outcome(x.chain, x.names, orig, ms, rep, k + 1)
        }
    }
}

/// What moving the original range `[start, end)` in front of offset `index`
/// does.
pub open spec fn moved(old: &MagicString, new: &MagicString, r: Result<(), Error>, start: int, end: int, index: nat) -> bool {
    let n = old.original@.len();
    let ch = old.chain@;
    &&& new.wf()
    &&& new.same_setup(old)
    &&& new.intro@ == old.intro@
    &&& new.outro@ == old.outro@
    &&& new.names() == old.names()
    &&& match normalized(n, start, end) {
        None => r is Err && r->Err_0.err_type == FmsErrType::Range && new.chain@ == ch,
        Some((s, e)) => if s >= e || (s <= index < e) || index > n {
            r is Err && r->Err_0.err_type == FmsErrType::Range && new.chain@ == ch
        } else if split_blocked(ch, s) || split_blocked(ch, e) || split_blocked(ch, index) {
            r is Err && r->Err_0.err_type == FmsErrType::SplitChunk && new.chain@ == ch
        } else {
            let sc = split_chain(split_chain(split_chain(ch, s), e), index);
            let f = pos_start(sc, s);
            let l = pos_end(sc, e);
            let t = if index < n { pos_start(sc, index) } else { sc.len() as int };
            if f > l || (f <= t <= l) {
                &&& r is Err && r->Err_0.err_type == FmsErrType::Range
                &&& new.chain@ == sc
                &&& render_chain(sc) == render_chain(ch)
            } else {
                r is Ok && new.chain@ == moved_chain(sc, f, l, t)
            }
        },
    }
}

pub open spec fn flag(o: Option<bool>) -> bool {
    o == Some(true)
}

/// Whether overwrite options ask to record the replaced text as a name.
pub open spec fn stores_name(options: Option<OverwriteOptions>) -> bool {
    options is Some && flag(options->0.store_name)
}

/// The position of the first recorded name equal to `o`.
pub open spec fn name_index(names: Seq<Seq<char>>, o: Seq<char>) -> Option<nat>
    decreases names.len(),
{
    if names.len() == 0 {
        None
    } else {
        match name_index(names.drop_last(), o) {
            Some(i) => Some(i),
            None => if names.last() == o {
                Some((names.len() - 1) as nat)
            } else {
                None
            },
        }
    }
}

proof fn lemma_name_index_prefix(names: Seq<Seq<char>>, o: Seq<char>, k: nat)
    requires
        k <= names.len(),
        name_index(names.take(k as int), o) is Some,
    ensures
        name_index(names, o) == name_index(names.take(k as int), o),
    decreases names.len() - k,
{
    if k < names.len() {
        assert(names.take(k + 1 as int).drop_last() =~= names.take(k as int));
        lemma_name_index_prefix(names, o, k + 1);
    } else {
        assert(names.take(k as int) =~= names);
    }
}

proof fn lemma_name_index_bound(names: Seq<Seq<char>>, o: Seq<char>)
    ensures
        name_index(names, o) is Some ==> name_index(names, o)->0 < names.len(),
    decreases names.len(),
{
    if names.len() > 0 {
        lemma_name_index_bound(names.drop_last(), o);
    }
}

/// The name a chunk's mappings carry: for a chunk that records one, the
/// first recorded name equal to its original text.
pub open spec fn chunk_name(names: Seq<Seq<char>>, c: ChunkView) -> Option<nat> {
    if c.store_name {
        name_index(names, c.original)
    } else {
        None
    }
}

/// The mappings after each chunk of `ch` in render order.
pub open spec fn chain_mappings(
    st: MapState,
    ch: Seq<ChunkView>,
    orig: Seq<char>,
    names: Seq<Seq<char>>,
    hires: bool,
    marks: Seq<bool>,
) -> MapState
    decreases ch.len(),
{
    if ch.len() == 0 {
        st
    } else {
        let s = chain_mappings(st, ch.drop_last(), orig, names, hires, marks);
        let c = ch.last();
        let loc = location(orig, c.start);
        chunk_mappings(s, orig, c.content, c.intro, c.outro, loc.0, loc.1, c.start, c.end, c.edited, chunk_name(names, c), hires, marks)
    }
}

/// The mappings of a whole session: its front text, its chunks, its back
/// text.
pub open spec fn session_mappings(ms: &MagicString, hires: bool) -> MapState {
    let st0 = MapState { raw: Seq::empty(), line: 0, col: 0 };
    let st1 = advance_text(st0, ms.intro@);
    advance_text(chain_mappings(st1, ms.chain@, ms.original@, ms.names(), hires, ms.sourcemap_locations@), ms.outro@)
}

/// The options in effect: the given ones or the defaults.
pub open spec fn map_file(o: Option<GenerateMapOptions>) -> Option<Seq<char>> {
    if o is Some && o->0.file is Some { Some(o->0.file->0@) } else { None }
}

pub open spec fn map_source(o: Option<GenerateMapOptions>) -> Option<Seq<char>> {
    if o is None {
        Some(Seq::empty())
    } else if o->0.source is Some {
        Some(o->0.source->0@)
    } else {
        None
    }
}

pub open spec fn map_hires(o: Option<GenerateMapOptions>) -> bool {
    o is Some && o->0.hires == Some(true)
}

pub open spec fn map_includes_content(o: Option<GenerateMapOptions>) -> bool {
    o is Some && o->0.include_content == Some(true)
}

pub open spec fn strings_view(v: Vec<String>) -> Seq<Seq<char>> {
    v@.map_values(|s: String| s@)
}

/// What a generated map holds besides its mappings.
pub open spec fn map_fields(
    ms: &MagicString,
    o: Option<GenerateMapOptions>,
    version: u8,
    file: Option<String>,
    source_root: Option<String>,
    sources: Vec<String>,
    sources_content: Option<Vec<String>>,
    names: Vec<String>,
    ignore: Option<Vec<u8>>,
) -> bool {
    &&& version == SOURCEMAP_VERSION
    &&& (file is Some) == (map_file(o) is Some)
    &&& file is Some ==> file->0@ == last_part(map_file(o)->0)
    &&& source_root == if o is Some { o->0.source_root } else { None }
    &&& strings_view(sources) == seq![
        if map_source(o) is Some {
            relative_path(if map_file(o) is Some { map_file(o)->0 } else { Seq::empty() }, map_source(o)->0)
        } else {
            Seq::empty()
        },
    ]
    &&& (sources_content is Some) == map_includes_content(o)
    &&& sources_content is Some ==> strings_view(sources_content->0) == seq![ms.original@]
    &&& strings_view(names) == ms.names()
    &&& (ignore is Some) == ms.ignore_list
    &&& ignore is Some ==> ignore->0@ == seq![0u8]
}

/// The character class that trimming removes: the one given, else `\\s`.
pub open spec fn trim_class(char_type: Option<&str>) -> Seq<char> {
    match char_type {
        Some(c) => c@,
        None => seq!['\\', 's'],
    }
}

/// A run of the class at the start of a text.
pub open spec fn start_pattern(class: Seq<char>) -> Seq<char> {
    seq!['^'] + class + seq!['+']
}

/// A run of the class at the end of a text.
pub open spec fn end_pattern(class: Seq<char>) -> Seq<char> {
    class + seq!['+', '$']
}

/// What trimming the start with pattern `pat` does: the front text first,
/// then the chunks front to back, until text is left that stops it; nothing
/// where the pattern does not compile.
pub open spec fn trimmed_start(old: &MagicString, new: &MagicString, r: bool, pat: Seq<char>) -> bool {
    &&& new.wf()
    &&& new.same_setup(old)
    &&& new.outro@ == old.outro@
    &&& new.names() == old.names()
    &&& if !regex_compiles(pat) {
        r && new.intro@ == old.intro@ && new.chain@ == old.chain@
    } else {
        let intro = regex_replaced(pat, old.intro@);
        &&& new.intro@ == intro
        &&& if intro.len() > 0 {
            r && new.chain@ == old.chain@
        } else {
            (new.chain@, r) == trim_start_walk(old.chain@, pat, 0)
        }
    }
}

/// What trimming the end with pattern `pat` does: the back text first, then
/// the chunks back to front, until text is left that stops it; nothing where
/// the pattern does not compile.
pub open spec fn trimmed_end(old: &MagicString, new: &MagicString, r: bool, pat: Seq<char>) -> bool {
    &&& new.wf()
    &&& new.same_setup(old)
    &&& new.intro@ == old.intro@
    &&& new.names() == old.names()
    &&& if !regex_compiles(pat) {
        r && new.outro@ == old.outro@ && new.chain@ == old.chain@
    } else {
        let outro = regex_replaced(pat, old.outro@);
        &&& new.outro@ == outro
        &&& if outro.len() > 0 {
            r && new.chain@ == old.chain@
        } else {
            (new.chain@, r) == trim_end_walk(old.chain@, pat, old.chain@.len())
        }
    }
}

/// The chain after inserting `t` at `k` as `insert_at` does, where that
/// succeeds.
pub open spec fn insert_chain(ch: Seq<ChunkView>, n: nat, k: nat, t: Seq<char>, right: bool, front: bool) -> Seq<
    ChunkView,
> {
    if k > n || split_blocked(ch, k) {
        ch
    } else if right {
        glue_right(split_chain(ch, k), k, t, front)
    } else {
        glue_left(split_chain(ch, k), k, t, front)
    }
}

/// The chain with `ind` put in front of what starts at each of `ps`, in turn.
pub open spec fn prepend_marks(ch: Seq<ChunkView>, n: nat, ps: Seq<nat>, ind: Seq<char>) -> Seq<ChunkView>
    decreases ps.len(),
{
    if ps.len() == 0 {
        ch
    } else {
        insert_chain(prepend_marks(ch, n, ps.drop_last(), ind), n, ps.last(), ind, true, true)
    }
}

/// The indent in effect: the one given, else the one the session keeps,
/// else the one guessed from the original text.
pub open spec fn indent_in_effect(ms: &MagicString, indent_str: Option<String>) -> Seq<char> {
    if indent_str is Some {
        indent_str->0@
    } else if ms.indent_str is Some {
        ms.indent_str->0@
    } else {
        guessed_indent(ms.original@)
    }
}

/// The offsets that indentation leaves alone.
pub open spec fn indent_exclusions(options: Option<IndentOptions>, n: nat) -> Seq<bool> {
    if options is Some && options->0.exclude is Some {
        exclusion_table(options->0.exclude->0@.map_values(|v: Vec<u32>| v@), n)
    } else {
        Seq::new(n, |p: int| false)
    }
}

/// An editing session over one original text.
pub struct MagicString {
    pub original: Vec<char>,
    pub intro: Vec<char>,
    pub outro: Vec<char>,
    pub chain: ChunkChain,
    pub stored_names: Vec<Vec<char>>,
    pub ignore_list: bool,
    pub sourcemap_locations: Vec<bool>,
    pub indent_str: Option<Vec<char>>,
}

impl MagicString {
    pub open spec fn wf(&self) -> bool {
        &&& self.chain.wf(self.original@)
        &&& self.sourcemap_locations@.len() == self.original@.len()
    }

    /// The text the session renders now.
    pub open spec fn rendered(&self) -> Seq<char> {
        self.intro@ + render_chain(self.chain@) + self.outro@
    }

    pub open spec fn names(&self) -> Seq<Seq<char>> {
        self.stored_names@.map_values(|v: Vec<char>| v@)
    }

    /// What an edit of the text leaves alone: the original, the marked
    /// offsets and the settings.
    pub open spec fn same_setup(&self, other: &MagicString) -> bool {
        &&& self.original@ == other.original@
        &&& self.sourcemap_locations@ == other.sourcemap_locations@
        &&& self.ignore_list == other.ignore_list
        &&& self.indent_str == other.indent_str
    }

    pub fn new(str: &str, options: Option<MagicStringOptions>) -> (r: MagicString)
        requires
            str@.len() <= i32::MAX,
        ensures
            r.wf(),
            r.original@ == str@,
            r.intro@.len() == 0,
            r.outro@.len() == 0,
            r.chain@ == seq![initial_view(str@)],
            r.names().len() == 0,
            r.ignore_list == (options is Some && options->0.ignore_list == Some(true)),
            forall|i: int| 0 <= i < str@.len() ==> !#[trigger] r.sourcemap_locations@[i],
            r.indent_str is None,
    {
        let options = match options {
            Some(o) => o,
            None => MagicStringOptions::default(),
        };
        let original = chars_of(str);
        let chain = ChunkChain::new(&original);
        let ignore_list = match options.ignore_list {
            Some(b) => b,
            None => false,
        };
        let mut sourcemap_locations: Vec<bool> = Vec::new();
        let mut i: usize = 0;
        while i < original.len()
            invariant
                i <= original@.len(),
                sourcemap_locations@.len() == i,
                forall|m: int| 0 <= m < i ==> !#[trigger] sourcemap_locations@[m],
            decreases original@.len() - i,
        {
            sourcemap_locations.push(false);
            i = i + 1;
        }
        let r = MagicString {
            original,
            intro: Vec::new(),
            outro: Vec::new(),
            chain,
            stored_names: Vec::new(),
            ignore_list,
            sourcemap_locations,
            indent_str: None,
        };
        assert(r.names() =~= Seq::<Seq<char>>::empty());
        r
    }

    /// Marks `index` of the original text as a place that always gets a
    /// mapping.
    pub fn add_sourcemap_location(&mut self, index: u32)
        requires
            old(self).wf(),
        ensures
            final(self).wf(),
            final(self).sourcemap_locations@ == if (index as int) < old(self).original@.len() {
                old(self).sourcemap_locations@.update(index as int, true)
            } else {
                old(self).sourcemap_locations@
            },
            final(self).original@ == old(self).original@,
            final(self).intro@ == old(self).intro@,
            final(self).outro@ == old(self).outro@,
            final(self).chain@ == old(self).chain@,
            final(self).names() == old(self).names(),
    {
        let i = index as usize;
        if i < self.sourcemap_locations.len() {
            self.sourcemap_locations.set(i, true);
        }
    }

    /// Adds `str` at the very end of the output.
    pub fn append(&mut self, str: &str) -> (r: Result<(), Error>)
        requires
            old(self).wf(),
        ensures
            r is Ok,
            final(self).wf(),
            final(self).same_setup(old(self)),
            final(self).intro@ == old(self).intro@,
            final(self).outro@ == old(self).outro@ + str@,
            final(self).chain@ == old(self).chain@,
            final(self).names() == old(self).names(),
            final(self).rendered() == old(self).rendered() + str@,
    {
        let t = chars_of(str);
        push_chars(&mut self.outro, &t);
        Ok(())
    }

    /// Adds `str` at the very start of the output.
    pub fn prepend(&mut self, str: &str) -> (r: Result<(), Error>)
        requires
            old(self).wf(),
        ensures
            r is Ok,
            final(self).wf(),
            final(self).same_setup(old(self)),
            final(self).intro@ == str@ + old(self).intro@,
            final(self).outro@ == old(self).outro@,
            final(self).chain@ == old(self).chain@,
            final(self).names() == old(self).names(),
            final(self).rendered() == str@ + old(self).rendered(),
    {
        let t = chars_of(str);
        self.intro = concat_chars(&t, &self.intro);
        Ok(())
    }

    /// Inserts `content` at offset `index`, glued to what ends there
    /// (`right == false`) or to what starts there (`right == true`), after
    /// what is glued there already or in front of it (`front`).
    fn insert_at(&mut self, index: u32, content: &str, right: bool, front: bool) -> (r: Result<(), Error>)
        requires
            old(self).wf(),
        ensures
            inserted(old(self), final(self), r, index as nat, content@, right, front),
    {
        let t = chars_of(content);
        let k = index as usize;
        if k > self.original.len() {
            push_chars(&mut self.intro, &t);
            return Ok(());
        }
        let ghost orig = self.original@;
        match self.chain.split_at(Ghost(self.original@), k) {
            Err(e) => {
                return Err(e);
            },
            Ok(()) => {},
        }
        let ghost sc = self.chain@;
        let ghost before = self.chain;
        let found = if right { self.chain.find_start(k) } else { self.chain.find_end(k) };
        match found {
            Some(i) => {
                proof {
                    lemma_unique(sc, orig);
                }
                if right {
                    if front {
                        self.chain.chunks[i].prepend_right(&t);
                    } else {
                        self.chain.chunks[i].append_right(&t);
                    }
                } else {
                    if front {
                        self.chain.chunks[i].prepend_left(&t);
                    } else {
                        self.chain.chunks[i].append_left(&t);
                    }
                }
                proof {
                    let target = if right { glue_right(sc, k as nat, t@, front) } else { glue_left(sc, k as nat, t@, front) };
                    assert(self.chain@ =~= target);
                    assert(same_spans(sc, self.chain@));
                    ChunkChain::lemma_respan(&before, &self.chain, orig);
                }
            },
            None => {
                push_chars(&mut self.intro, &t);
                proof {
                    if right {
                        assert(glue_right(sc, k as nat, t@, front) =~= sc);
                    } else {
                        assert(glue_left(sc, k as nat, t@, front) =~= sc);
                    }
                }
            },
        }
        Ok(())
    }

    /// Inserts `content` at `index`, after what is already glued to the
    /// chunk that ends there.
    pub fn append_left(&mut self, index: u32, content: &str) -> (r: Result<(), Error>)
        requires
            old(self).wf(),
        ensures
            inserted(old(self), final(self), r, index as nat, content@, false, false),
    {
        self.insert_at(index, content, false, false)
    }

    /// Inserts `content` at `index`, in front of what is already glued to the
    /// chunk that ends there.
    pub fn prepend_left(&mut self, index: u32, content: &str) -> (r: Result<(), Error>)
        requires
            old(self).wf(),
        ensures
            inserted(old(self), final(self), r, index as nat, content@, false, true),
    {
        self.insert_at(index, content, false, true)
    }

    /// Inserts `content` at `index`, after what is already glued to the
    /// chunk that starts there.
    pub fn append_right(&mut self, index: u32, content: &str) -> (r: Result<(), Error>)
        requires
            old(self).wf(),
        ensures
            inserted(old(self), final(self), r, index as nat, content@, true, false),
    {
        self.insert_at(index, content, true, false)
    }

    /// Inserts `content` at `index`, in front of what is already glued to the
    /// chunk that starts there.
    pub fn prepend_right(&mut self, index: u32, content: &str) -> (r: Result<(), Error>)
        requires
            old(self).wf(),
        ensures
            inserted(old(self), final(self), r, index as nat, content@, true, true),
    {
        self.insert_at(index, content, true, true)
    }

    /// The rendered text as characters.
    pub fn render(&self) -> (r: Vec<char>)
        ensures
            r@ == self.rendered(),
    {
        let mut r = copy_chars(&self.intro);
        let mut i: usize = 0;
        while i < self.chain.chunks.len()
            invariant
                i <= self.chain@.len(),
                self.chain@.len() == self.chain.chunks@.len(),
                r@ == self.intro@ + render_chain(self.chain@.take(i as int)),
            decreases self.chain@.len() - i,
        {
            let c = &self.chain.chunks[i];
            push_chars(&mut r, &c.intro);
            push_chars(&mut r, &c.content);
            push_chars(&mut r, &c.outro);
            proof {
                let ch = self.chain@;
                assert(ch.take(i + 1).drop_last() =~= ch.take(i as int));
                assert(ch[i as int] == self.chain.chunks@[i as int]@);
            }
            i = i + 1;
        }
        assert(self.chain@.take(i as int) =~= self.chain@);
        push_chars(&mut r, &self.outro);
        r
    }

    /// The text the session renders now.
    pub fn to_string(&self) -> (r: String)
        ensures
            r@ == self.rendered(),
    {
        string_of(self.render())
    }

    /// Whether the rendered text differs from the original.
    pub fn has_changed(&self) -> (r: bool)
        ensures
            r == (self.rendered() != self.original@),
    {
        let out = self.render();
        !same_chars(&self.original, &out)
    }

    /// The rendered text of the original range `[start, end)`.
    pub fn slice(&self, start: i32, end: i32) -> (r: Result<String, Error>)
        requires
            self.wf(),
        ensures
            match normalized(self.original@.len(), start as int, end as int) {
                None => r is Err && r->Err_0.err_type == FmsErrType::Range,
                Some((s, e)) => match slice_of(self.chain@, s, e) {
                    Some(t) => r is Ok && r->Ok_0@ == t,
                    None => r is Err && r->Err_0.err_type == FmsErrType::Slice,
                },
            },
    {
        let (s, e) = match normalize(self.original.len(), start, end) {
            Ok(p) => p,
            Err(err) => {
                return Err(err);
            },
        };
        let ghost ch = self.chain@;
        if s >= e {
            return Ok(string_of(Vec::new()));
        }
        proof {
            lemma_holds_unique(ch, self.original@, s as nat, e as nat);
        }
        let mut i: usize = 0;
        while i < self.chain.chunks.len()
            invariant
                0 <= i <= ch.len(),
                ch == self.chain@,
                normalized(self.original@.len(), start as int, end as int) == Some((s as nat, e as nat)),
                ch.len() == self.chain.chunks@.len(),
                forall|m: int| 0 <= m < i ==> !holds(#[trigger] ch[m], s as nat) && !holds_end(ch[m], e as nat),
                0 <= chunk_at(ch, s as nat) < ch.len(),
                holds(ch[chunk_at(ch, s as nat)], s as nat),
                partition(ch, self.original@),
                s < e <= self.original@.len(),
            ensures
                i < ch.len(),
                holds(ch[i as int], s as nat),
                forall|m: int| 0 <= m < i ==> !holds_end(#[trigger] ch[m], e as nat),
            decreases ch.len() - i,
        {
            assert(ch[i as int] == self.chain.chunks@[i as int]@);
            if self.chain.chunks[i].start <= s && s < self.chain.chunks[i].end {
                break;
            }
            if self.chain.chunks[i].start < e && e <= self.chain.chunks[i].end {
                proof {
                    lemma_holds_unique(ch, self.original@, s as nat, e as nat);
                    assert(holds_end(ch[i as int], e as nat));
                    assert(chunk_ending(ch, e as nat) == i);
                    assert(!holds(ch[i as int], s as nat));
                    let a = chunk_at(ch, s as nat);
                    if a <= i {
                        assert(!holds(ch[a], s as nat));
                    }
                    assert(a > i);
                    assert(slice_of(ch, s as nat, e as nat) == Some(Seq::<char>::empty()));
                }
                return Ok(string_of(Vec::new()));
            }
            i = i + 1;
        }
        proof {
            lemma_holds_unique(ch, self.original@, s as nat, e as nat);
        }
        assert(i == chunk_at(ch, s as nat));
        let mut j: usize = i;
        while j < self.chain.chunks.len()
            invariant
                i <= j <= ch.len(),
                ch == self.chain@,
                normalized(self.original@.len(), start as int, end as int) == Some((s as nat, e as nat)),
                ch.len() == self.chain.chunks@.len(),
                forall|m: int| 0 <= m < j ==> !holds_end(#[trigger] ch[m], e as nat),
                0 <= chunk_ending(ch, e as nat) < ch.len(),
                holds_end(ch[chunk_ending(ch, e as nat)], e as nat),
            ensures
                j < ch.len(),
                holds_end(ch[j as int], e as nat),
            decreases ch.len() - j,
        {
            assert(ch[j as int] == self.chain.chunks@[j as int]@);
            if self.chain.chunks[j].start < e && e <= self.chain.chunks[j].end {
                break;
            }
            j = j + 1;
        }
        proof {
            lemma_holds_unique(ch, self.original@, s as nat, e as nat);
        }
        assert(j == chunk_ending(ch, e as nat));
        assert(ch[i as int] == self.chain.chunks@[i as int]@);
        assert(ch[j as int] == self.chain.chunks@[j as int]@);
        if self.chain.chunks[i].edited && self.chain.chunks[i].start != s {
            return Err(Error::from_reason(FmsErrType::Slice, "Cannot use replaced character as slice start anchor."));
        }
        if self.chain.chunks[j].edited && self.chain.chunks[j].end != e {
            return Err(Error::from_reason(FmsErrType::Slice, "Cannot use replaced character as slice end anchor."));
        }
        let mut out: Vec<char> = Vec::new();
        let mut m: usize = i;
        let len = self.chain.chunks.len();
        while m <= j
            invariant
                len == ch.len(),
                i <= m <= j + 1,
                j < ch.len(),
                i == chunk_at(ch, s as nat),
                j == chunk_ending(ch, e as nat),
                ch == self.chain@,
                normalized(self.original@.len(), start as int, end as int) == Some((s as nat, e as nat)),
                ch.len() == self.chain.chunks@.len(),
                partition(ch, self.original@),
                s < e,
                holds(ch[i as int], s as nat),
                holds_end(ch[j as int], e as nat),
                !(ch[i as int].edited && ch[i as int].start != s),
                !(ch[j as int].edited && ch[j as int].end != e),
                out@ == slice_run(ch, i as int, (m - i) as nat, j as int, s as nat, e as nat),
            decreases j + 1 - m,
        {
            let c = &self.chain.chunks[m];
            assert(ch[m as int] == self.chain.chunks@[m as int]@);
            assert(chunk_wf(ch[m as int]));
            let first = m == i;
            let last = m == j;
            if !first || c.start == s {
                push_chars(&mut out, &c.intro);
            }
            let lo = if first { s - c.start } else { 0 };
            let hi = if last { c.content.len() - (c.end - e) } else { c.content.len() };
            let part = sub_chars(&c.content, lo, hi);
            push_chars(&mut out, &part);
            if !last || c.end == e {
                push_chars(&mut out, &c.outro);
            }
            proof {
                let cv = ch[m as int];
                assert(out@ =~= slice_run(ch, i as int, (m - i) as nat, j as int, s as nat, e as nat)
                    + slice_piece(cv, first, last, s as nat, e as nat));
                assert((m + 1 - i) as nat - 1 == (m - i) as nat);
            }
            m = m + 1;
        }
        Ok(string_of(out))
    }

    /// Replaces the original range `[start, end)` by `t`.
    fn overwrite_range(
        &mut self,
        start: i32,
        end: i32,
        t: &Vec<char>,
        store_name: bool,
        content_only: bool,
    ) -> (r: Result<(), Error>)
        requires
            old(self).wf(),
        ensures
            overwritten(old(self), final(self), r, start as int, end as int, t@, store_name, content_only),
    {
        let (s, e) = match normalize(self.original.len(), start, end) {
            Ok(p) => p,
            Err(err) => {
                return Err(err);
            },
        };
        let ghost orig = self.original@;
        let ghost ch = self.chain@;
        let ghost names = self.names();
        if s >= e {
            return Err(Error::from_reason(
                FmsErrType::Range,
                "Cannot overwrite a zero-length range - use appendLeft or prependRight instead",
            ));
        }
        match self.chain.overwrite(Ghost(orig), s, e, t, store_name, content_only) {
            Ok(()) => {},
            Err(err) => {
                return Err(err);
            },
        }
        if store_name {
            let name = sub_chars(&self.original, s, e);
            self.stored_names.push(name);
            proof {
                assert(self.names() =~= names.push(orig.subrange(s as int, e as int)));
            }
        }
        Ok(())
    }

    /// Replaces the original range `[start, end)` by `content`, dropping what
    /// was glued around it unless the options ask for `content_only`.
    pub fn overwrite(&mut self, start: i32, end: i32, content: &str, options: Option<OverwriteOptions>) -> (r: Result<
        (),
        Error,
    >)
        requires
            old(self).wf(),
        ensures
            overwritten(
                old(self),
                final(self),
                r,
                start as int,
                end as int,
                content@,
                stores_name(options),
                options is Some && flag(options->0.content_only),
            ),
    {
        let (store_name, content_only) = match &options {
            Some(o) => (o.store_name == Some(true), o.content_only == Some(true)),
            None => (false, false),
        };
        let t = chars_of(content);
        self.overwrite_range(start, end, &t, store_name, content_only)
    }

    /// Replaces the original range `[start, end)` by `content`, keeping what
    /// was glued around it unless the options ask for `overwrite`.
    pub fn update(&mut self, start: i32, end: i32, content: &str, options: Option<OverwriteOptions>) -> (r: Result<
        (),
        Error,
    >)
        requires
            old(self).wf(),
        ensures
            overwritten(
                old(self),
                final(self),
                r,
                start as int,
                end as int,
                content@,
                stores_name(options),
                !(options is Some && flag(options->0.overwrite)),
            ),
    {
        let (store_name, content_only) = match &options {
            Some(o) => (o.store_name == Some(true), !(o.overwrite == Some(true))),
            None => (false, true),
        };
        let t = chars_of(content);
        self.overwrite_range(start, end, &t, store_name, content_only)
    }

    fn clear_range(&mut self, start: i32, end: i32, reset: bool) -> (r: Result<(), Error>)
        requires
            old(self).wf(),
        ensures
            cleared(old(self), final(self), r, start as int, end as int, reset),
    {
        let (s, e) = match normalize(self.original.len(), start, end) {
            Ok(p) => p,
            Err(err) => {
                return Err(err);
            },
        };
        if s >= e {
            return Ok(());
        }
        let ghost orig = self.original@;
        let ghost ch = self.chain@;
        if self.chain.is_blocked(Ghost(orig), s) || self.chain.is_blocked(Ghost(orig), e) {
            return Err(Error::from_reason(FmsErrType::SplitChunk, "Cannot split a chunk that has already been edited"));
        }
        proof {
            lemma_blocked_after_split(ch, orig, s as nat, e as nat);
        }
        let _ = self.chain.split_at(Ghost(orig), s);
        let _ = self.chain.split_at(Ghost(orig), e);
        self.chain.clear(Ghost(orig), s, e, reset);
        Ok(())
    }

    /// Blanks the original range `[start, end)` and what is glued to its
    /// chunks.
    pub fn remove(&mut self, start: i32, end: i32) -> (r: Result<(), Error>)
        requires
            old(self).wf(),
        ensures
            cleared(old(self), final(self), r, start as int, end as int, false),
    {
        self.clear_range(start, end, false)
    }

    /// Gives the chunks of the original range `[start, end)` their original
    /// content back.
    pub fn reset(&mut self, start: i32, end: i32) -> (r: Result<(), Error>)
        requires
            old(self).wf(),
        ensures
            cleared(old(self), final(self), r, start as int, end as int, true),
    {
        self.clear_range(start, end, true)
    }

    /// Moves the original range `[start, end)` so that it renders in front of
    /// the chunk that starts at `index` (at the end when `index` is the end of
    /// the text).
    pub fn _move(&mut self, start: i32, end: i32, index: u32) -> (r: Result<(), Error>)
        requires
            old(self).wf(),
        ensures
            moved(old(self), final(self), r, start as int, end as int, index as nat),
    {
        let (s, e) = match normalize(self.original.len(), start, end) {
            Ok(p) => p,
            Err(err) => {
                return Err(err);
            },
        };
        let k = index as usize;
        let n = self.original.len();
        if s >= e || (k >= s && k < e) || k > n {
            return Err(Error::from_reason(FmsErrType::Range, "Cannot move a selection inside itself"));
        }
        self.chain.move_range(Ghost(self.original@), s, e, k)
    }

    /// An independent copy of the session, with no indent guessed yet.
    pub fn _clone(&self) -> (r: MagicString)
        requires
            self.wf(),
        ensures
            r.wf(),
            r.original@ == self.original@,
            r.intro@ == self.intro@,
            r.outro@ == self.outro@,
            r.chain@ == self.chain@,
            r.names() == self.names(),
            r.ignore_list == self.ignore_list,
            r.sourcemap_locations@ == self.sourcemap_locations@,
            r.indent_str is None,
    {
        let mut stored_names: Vec<Vec<char>> = Vec::new();
        let mut i: usize = 0;
        while i < self.stored_names.len()
            invariant
                i <= self.stored_names@.len(),
                stored_names@.len() == i,
                forall|m: int| 0 <= m < i ==> (#[trigger] stored_names@[m])@ == self.stored_names@[m]@,
            decreases self.stored_names@.len() - i,
        {
            stored_names.push(copy_chars(&self.stored_names[i]));
            i = i + 1;
        }
        let r = MagicString {
            original: copy_chars(&self.original),
            intro: copy_chars(&self.intro),
            outro: copy_chars(&self.outro),
            chain: self.chain.clone_chain(Ghost(self.original@)),
            stored_names,
            ignore_list: self.ignore_list,
            sourcemap_locations: copy_bools(&self.sourcemap_locations),
            indent_str: None,
        };
        assert(r.names() =~= self.names());
        r
    }

    /// A copy of the session that renders only the original range
    /// `[start, end)`: everything before `start` and from `end` on is removed.
    pub fn snip(&mut self, start: i32, end: i32) -> (r: Result<MagicString, Error>)
        requires
            old(self).wf(),
        ensures
            *final(self) == *old(self),
            ({
                let n = old(self).original@.len();
                let a = clear_outcome(old(self).chain@, n, 0, start as int, false);
                let b = clear_outcome(a.chain, n, end as int, n as int, false);
                if a.error is Some {
                    r is Err && r->Err_0.err_type == a.error->0
                } else if b.error is Some {
                    r is Err && r->Err_0.err_type == b.error->0
                } else {
                    &&& r is Ok
                    &&& r->Ok_0.wf()
                    &&& r->Ok_0.chain@ == b.chain
                    &&& r->Ok_0.original@ == old(self).original@
                    &&& r->Ok_0.intro@ == old(self).intro@
                    &&& r->Ok_0.outro@ == old(self).outro@
                    &&& r->Ok_0.names() == old(self).names()
                }
            }),
    {
        let mut cloned = self._clone();
        match cloned.remove(0, start) {
            Ok(()) => {},
            Err(err) => {
                return Err(err);
            },
        }
        let n = cloned.original.len() as i32;
        match cloned.remove(end, n) {
            Ok(()) => {},
            Err(err) => {
                return Err(err);
            },
        }
        Ok(cloned)
    }

    /// The position of the first recorded name equal to `o`.
    fn find_name(&self, o: &Vec<char>) -> (r: Option<usize>)
        ensures
            r is Some == name_index(self.names(), o@) is Some,
            r is Some ==> r->0 as nat == name_index(self.names(), o@)->0,
    {
        let ghost names = self.names();
        let mut i: usize = 0;
        while i < self.stored_names.len()
            invariant
                i <= names.len(),
                names == self.names(),
                name_index(names.take(i as int), o@) is None,
            decreases names.len() - i,
        {
            proof {
                assert(names.take(i + 1).drop_last() =~= names.take(i as int));
                assert(names[i as int] == self.stored_names@[i as int]@);
            }
            if same_chars(&self.stored_names[i], o) {
                proof {
                    lemma_name_index_prefix(names, o@, (i + 1) as nat);
                }
                return Some(i);
            }
            i = i + 1;
        }
        assert(names.take(i as int) =~= names);
        None
    }

    fn string_list(v: &Vec<Vec<char>>) -> (r: Vec<String>)
        ensures
            strings_view(r) == v@.map_values(|x: Vec<char>| x@),
    {
        let mut r: Vec<String> = Vec::new();
        let mut i: usize = 0;
        while i < v.len()
            invariant
                i <= v@.len(),
                strings_view(r) == v@.take(i as int).map_values(|x: Vec<char>| x@),
            decreases v@.len() - i,
        {
            let ghost r0 = strings_view(r);
            r.push(string_of(copy_chars(&v[i])));
            assert(strings_view(r) =~= r0.push(v@[i as int]@));
            assert(v@.take(i + 1).map_values(|x: Vec<char>| x@) =~= v@.take(i as int).map_values(|x: Vec<char>| x@).push(v@[i as int]@));
            i = i + 1;
        }
        assert(v@.take(i as int) =~= v@);
        r
    }

    /// The raw mappings of the whole session.
    fn collect_mappings(&self, hires: bool) -> (r: MappingsFacade)
        requires
            self.wf(),
            self.rendered().len() <= POSITION_LIMIT,
            self.names().len() <= POSITION_LIMIT,
        ensures
            r@ == session_mappings(self, hires),
            raw_bounded(r@.raw),
    {
        let ghost ch = self.chain@;
        let ghost orig = self.original@;
        let ghost names = self.names();
        let ghost marks = self.sourcemap_locations@;
        let ghost total = self.rendered().len();
        proof {
            lemma_render_concat(Seq::empty(), ch);
            assert(Seq::<ChunkView>::empty() + ch =~= ch);
            assert(render_chain(Seq::<ChunkView>::empty()) =~= Seq::<char>::empty());
        }
        let locator = Locator::new(&self.original);
        let mut facade = MappingsFacade::new(hires, &self.sourcemap_locations);
        proof {
            assert(facade@.raw =~= Seq::<Seq<crate::mappings::Segment>>::empty());
        }
        facade.advance_chars(&self.intro);
        let ghost st1 = facade@;
        let mut i: usize = 0;
        while i < self.chain.chunks.len()
            invariant
                i <= ch.len(),
                ch == self.chain@,
                ch.len() == self.chain.chunks@.len(),
                orig == self.original@,
                names == self.names(),
                marks == self.sourcemap_locations@,
                self.wf(),
                locator.wf(),
                locator.text@ == orig,
                facade.hires == hires,
                facade.sourcemap_locations@ == marks,
                facade@ == chain_mappings(st1, ch.take(i as int), orig, names, hires, marks),
                raw_bounded(facade@.raw),
                facade@.line + facade@.col <= self.intro@.len() + render_chain(ch.take(i as int)).len(),
                total == self.intro@.len() + render_chain(ch).len() + self.outro@.len(),
                total <= POSITION_LIMIT,
                names.len() <= POSITION_LIMIT,
            decreases ch.len() - i,
        {
            let c = &self.chain.chunks[i];
            let ghost cv = ch[i as int];
            assert(cv == c@);
            proof {
                assert(chunk_wf(cv));
                assert(cv.end <= orig.len());
                lemma_location_bound(orig, cv.start);
                assert(ch.take(i + 1).drop_last() =~= ch.take(i as int));
                assert(ch.take(i + 1).last() == cv);
                lemma_render_concat(ch.take(i + 1), ch.skip(i + 1));
                assert(ch.take(i + 1) + ch.skip(i + 1) =~= ch);
                if !cv.edited {
                    assert(cv.content.len() == cv.end - cv.start);
                }
            }
            let loc = match locator.locate(c.start) {
                Some(l) => l,
                None => (0, 0),
            };
            let name = if c.store_name {
                self.find_name(&c.original)
            } else {
                None
            };
            proof {
                lemma_name_index_bound(names, cv.original);
            }
            facade.add_chunk(&self.original, &c.content, &c.intro, &c.outro, loc, (c.start, c.end), c.edited, name);
            i = i + 1;
        }
        assert(ch.take(i as int) =~= ch);
        facade.advance_chars(&self.outro);
        facade
    }

    /// The source map of the session with its mappings as integers.
    pub fn generate_decoded_map(&self, options: Option<GenerateMapOptions>) -> (r: Result<DecodedMap, Error>)
        requires
            self.wf(),
            self.rendered().len() <= POSITION_LIMIT,
            self.names().len() <= POSITION_LIMIT,
        ensures
            r is Ok,
            mappings_view(r->Ok_0.mappings) == raw_deltas(session_mappings(self, map_hires(options)).raw),
            fits_vlq(mappings_view(r->Ok_0.mappings)),
            map_fields(
                self,
                options,
                r->Ok_0.version,
                r->Ok_0.file,
                r->Ok_0.source_root,
                r->Ok_0.sources,
                r->Ok_0.sources_content,
                r->Ok_0.names,
                r->Ok_0.x_google_ignore_list,
            ),
    {
        let ghost o = options;
        let (file, source, source_root, include_content, hires) = match options {
            Some(opts) => (opts.file, opts.source, opts.source_root, opts.include_content == Some(true), opts.hires == Some(true)),
            None => (None, Some(string_of(Vec::new())), None, false, false),
        };
        let facade = self.collect_mappings(hires);
        let mappings = facade.get();
        let file_out = match &file {
            Some(f) => Some(file_name(f.as_str())),
            None => None,
        };
        let source_out = match &source {
            Some(src) => match &file {
                Some(f) => get_relative_path(f.as_str(), src.as_str()),
                None => get_relative_path("", src.as_str()),
            },
            None => string_of(Vec::new()),
        };
        proof {
            reveal_strlit("");
        }
        let mut sources: Vec<String> = Vec::new();
        sources.push(source_out);
        let sources_content = if include_content {
            let mut v: Vec<String> = Vec::new();
            v.push(string_of(copy_chars(&self.original)));
            Some(v)
        } else {
            None
        };
        let names = Self::string_list(&self.stored_names);
        let ignore = if self.ignore_list {
            let mut v: Vec<u8> = Vec::new();
            v.push(0u8);
            Some(v)
        } else {
            None
        };
        proof {
            assert(strings_view(sources) =~= seq![sources@[0]@]);
            if include_content {
                assert(strings_view(sources_content->0) =~= seq![self.original@]);
            }
            if self.ignore_list {
                assert(ignore->0@ =~= seq![0u8]);
            }
        }
        Ok(DecodedMap {
            version: SOURCEMAP_VERSION,
            file: file_out,
            source_root,
            sources,
            sources_content,
            names,
            mappings,
            x_google_ignore_list: ignore,
        })
    }

    /// The source map of the session with its mappings encoded as text.
    pub fn generate_map(&self, options: Option<GenerateMapOptions>) -> (r: Result<SourceMap, Error>)
        requires
            self.wf(),
            self.rendered().len() <= POSITION_LIMIT,
            self.names().len() <= POSITION_LIMIT,
        ensures
            r is Ok,
            r->Ok_0.mappings@ == mappings_text(raw_deltas(session_mappings(self, map_hires(options)).raw)),
            map_fields(
                self,
                options,
                r->Ok_0.version,
                r->Ok_0.file,
                r->Ok_0.source_root,
                r->Ok_0.sources,
                r->Ok_0.sources_content,
                r->Ok_0.names,
                r->Ok_0.x_google_ignore_list,
            ),
    {
        let decoded = match self.generate_decoded_map(options) {
            Ok(d) => d,
            Err(e) => {
                return Err(e);
            },
        };
        SourceMap::from_decoded_map(decoded)
    }

    /// Overwrites the first occurrence of `search_value` in the original text
    /// with `replacement`.
    pub fn replace_by_string(&mut self, search_value: &str, replacement: &str) -> (r: Result<(), Error>)
        requires
            old(self).wf(),
        ensures
            match find_from(old(self).original@, search_value@, 0) {
                None => r is Ok && *final(self) == *old(self),
                Some(i) => overwritten(
                    old(self),
                    final(self),
                    r,
                    i as int,
                    (i + search_value@.len()) as int,
                    replacement@,
                    false,
                    false,
                ),
            },
    {
        let pat = chars_of(search_value);
        proof {
            lemma_find_from_bound(self.original@, pat@, 0);
        }
        match find_chars(&self.original, &pat, 0) {
            None => Ok(()),
            Some(i) => {
                let t = chars_of(replacement);
                self.overwrite_range(i as i32, (i + pat.len()) as i32, &t, false, false)
            },
        }
    }

    /// Overwrites each occurrence of `search_value` in the original text with
    /// `replacement`, left to right, each search starting after the previous
    /// occurrence.
    pub fn replace_all_by_string(&mut self, search_value: &str, replacement: &str) -> (r: Result<(), Error>)
        requires
            old(self).wf(),
        ensures
            final(self).wf(),
            final(self).same_setup(old(self)),
            final(self).intro@ == old(self).intro@,
            final(self).outro@ == old(self).outro@,
            ({
                let x = replace_all_outcome(
                    old(self).chain@,
                    old(self).names(),
                    old(self).original@,
                    search_value@,
                    replacement@,
                    0,
                );
                &&& final(self).chain@ == x.chain
                &&& final(self).names() == x.names
                &&& (r is Ok <==> x.error is None)
                &&& (r is Err ==> r->Err_0.err_type == x.error->0)
            }),
    {
        let pat = chars_of(search_value);
        let t = chars_of(replacement);
        let ghost orig = self.original@;
        let ghost target = replace_all_outcome(self.chain@, self.names(), orig, pat@, t@, 0);
        let ghost start = *self;
        let mut offset: usize = 0;
        loop
            invariant
                self.wf(),
                self.same_setup(&start),
                self.intro@ == start.intro@,
                self.outro@ == start.outro@,
                orig == self.original@,
                start == *old(self),
                pat@ == search_value@,
                t@ == replacement@,
                target == replace_all_outcome(start.chain@, start.names(), orig, search_value@, replacement@, 0),
                offset <= orig.len(),
                replace_all_outcome(self.chain@, self.names(), orig, pat@, t@, offset as nat) == target,
            ensures
                self.wf(),
                self.same_setup(&start),
                self.intro@ == start.intro@,
                self.outro@ == start.outro@,
                self.chain@ == target.chain,
                self.names() == target.names,
                target.error is None,
            decreases orig.len() + 1 - offset,
        {
            proof {
                lemma_find_from_bound(orig, pat@, offset as nat);
            }
            match find_chars(&self.original, &pat, offset) {
                None => {
                    break;
                },
                Some(i) => {
                    let e = i + pat.len();
                    let ghost before = *self;
                    let res = self.overwrite_range(i as i32, e as i32, &t, false, false);
                    let ghost x = overwrite_outcome(before.chain@, before.names(), orig, i as nat, e as nat, t@, false, false);
                    assert(normalized(orig.len(), i as int, e as int) == Some((i as nat, e as nat)));
                    match res {
                        Err(err) => {
                            assert(x.error is Some);
                            assert(replace_all_outcome(before.chain@, before.names(), orig, pat@, t@, offset as nat) == x);
                            return Err(err);
                        },
                        Ok(()) => {},
                    }
                    if pat.len() == 0 {
                        return Ok(());
                    }
                    offset = e;
                },
            }
        }
        Ok(())
    }

    fn class_chars(char_type: Option<&str>) -> (r: Vec<char>)
        ensures
            r@ == trim_class(char_type),
    {
        match char_type {
            Some(c) => chars_of(c),
            None => {
                let mut v: Vec<char> = Vec::new();
                v.push('\\');
                v.push('s');
                assert(v@ =~= seq!['\\', 's']);
                v
            },
        }
    }

    /// Removes the run of `char_type` (default: white space) at the start of
    /// the output; returns whether text was left that stopped it.
    pub fn trim_start_aborted(&mut self, char_type: Option<&str>) -> (r: bool)
        requires
            old(self).wf(),
        ensures
            trimmed_start(old(self), final(self), r, start_pattern(trim_class(char_type))),
    {
        let class = Self::class_chars(char_type);
        let mut pv: Vec<char> = Vec::new();
        pv.push('^');
        push_chars(&mut pv, &class);
        pv.push('+');
        assert(pv@ =~= start_pattern(trim_class(char_type)));
        let pattern = string_of(pv);
        match compile_regex(pattern.as_str()) {
            None => true,
            Some(re) => {
                self.intro = strip_match(&re, &self.intro);
                if self.intro.len() > 0 {
                    return true;
                }
                self.chain.trim_start_chunks(Ghost(self.original@), &re)
            },
        }
    }

    /// Removes the run of `char_type` (default: white space) at the end of
    /// the output; returns whether text was left that stopped it.
    pub fn trim_end_aborted(&mut self, char_type: Option<&str>) -> (r: bool)
        requires
            old(self).wf(),
        ensures
            trimmed_end(old(self), final(self), r, end_pattern(trim_class(char_type))),
    {
        let mut pv = Self::class_chars(char_type);
        pv.push('+');
        pv.push('$');
        assert(pv@ =~= end_pattern(trim_class(char_type)));
        let pattern = string_of(pv);
        match compile_regex(pattern.as_str()) {
            None => true,
            Some(re) => {
                self.outro = strip_match(&re, &self.outro);
                if self.outro.len() > 0 {
                    return true;
                }
                self.chain.trim_end_chunks(Ghost(self.original@), &re)
            },
        }
    }

    /// Removes the run of `char_type` (default: white space) at the start of
    /// the output.
    pub fn trim_start(&mut self, char_type: Option<&str>)
        requires
            old(self).wf(),
        ensures
            exists|r: bool| trimmed_start(old(self), final(self), r, start_pattern(trim_class(char_type))),
    {
        let _ = self.trim_start_aborted(char_type);
    }

    /// Removes the run of `char_type` (default: white space) at the end of
    /// the output.
    pub fn trim_end(&mut self, char_type: Option<&str>)
        requires
            old(self).wf(),
        ensures
            exists|r: bool| trimmed_end(old(self), final(self), r, end_pattern(trim_class(char_type))),
    {
        let _ = self.trim_end_aborted(char_type);
    }

    /// Removes the runs of `char_type` (default: white space) at both ends of
    /// the output: first the start, then the end.
    pub fn trim(&mut self, char_type: Option<&str>)
        requires
            old(self).wf(),
        ensures
            exists|mid: MagicString, a: bool, b: bool|
                trimmed_start(old(self), &mid, a, start_pattern(trim_class(char_type))) && trimmed_end(
                    &mid,
                    final(self),
                    b,
                    end_pattern(trim_class(char_type)),
                ),
    {
        let ghost s0 = *self;
        let a = self.trim_start_aborted(char_type);
        let ghost mid = *self;
        let b = self.trim_end_aborted(char_type);
        assert(trimmed_start(&s0, &mid, a, start_pattern(trim_class(char_type))));
    }

    /// Removes line breaks at both ends of the output.
    pub fn trim_lines(&mut self)
        requires
            old(self).wf(),
        ensures
            exists|mid: MagicString, a: bool, b: bool|
                trimmed_start(old(self), &mid, a, start_pattern(line_break_class())) && trimmed_end(
                    &mid,
                    final(self),
                    b,
                    end_pattern(line_break_class()),
                ),
    {
        proof {
            reveal_strlit("[\\r\\n]");
            assert("[\\r\\n]"@ =~= line_break_class());
        }
        self.trim(Some("[\\r\\n]"));
    }


    /// Guesses the indent of the original text once and keeps it.
    fn _ensure_indent_str(&mut self) -> (r: Result<(), Error>)
        requires
            old(self).wf(),
        ensures
            r is Ok,
            final(self).indent_str is Some,
            final(self).indent_str->0@ == indent_in_effect(old(self), None),
            old(self).indent_str is Some ==> final(self).indent_str == old(self).indent_str,
            final(self).original == old(self).original,
            final(self).intro == old(self).intro,
            final(self).outro == old(self).outro,
            final(self).chain == old(self).chain,
            final(self).stored_names == old(self).stored_names,
            final(self).ignore_list == old(self).ignore_list,
            final(self).sourcemap_locations == old(self).sourcemap_locations,
    {
        if self.indent_str.is_none() {
            let s = string_of(copy_chars(&self.original));
            let guessed = match guess_indent(s.as_str()) {
                Ok(g) => g,
                Err(e) => {
                    return Err(e);
                },
            };
            self.indent_str = Some(chars_of(guessed.as_str()));
        }
        Ok(())
    }

    /// Puts `ind` in front of what starts at each of `marks`, in turn.
    fn prepend_at_marks(&mut self, marks: &Vec<usize>, ind: &Vec<char>)
        requires
            old(self).wf(),
            forall|m: int| 0 <= m < marks@.len() ==> (#[trigger] marks@[m]) < old(self).original@.len(),
        ensures
            final(self).wf(),
            final(self).same_setup(old(self)),
            final(self).intro@ == old(self).intro@,
            final(self).outro@ == old(self).outro@,
            final(self).names() == old(self).names(),
            final(self).chain@ == prepend_marks(
                old(self).chain@,
                old(self).original@.len(),
                marks@.map_values(|p: usize| p as nat),
                ind@,
            ),
    {
        let ghost start = *self;
        let ghost n = self.original@.len();
        let text = string_of(copy_chars(ind));
        let mut k: usize = 0;
        while k < marks.len()
            invariant
                k <= marks@.len(),
                self.wf(),
                self.same_setup(&start),
                self.intro@ == start.intro@,
                self.outro@ == start.outro@,
                self.names() == start.names(),
                n == start.original@.len(),
                text@ == ind@,
                forall|m: int| 0 <= m < marks@.len() ==> (#[trigger] marks@[m]) < n,
                self.chain@ == prepend_marks(start.chain@, n, marks@.map_values(|p: usize| p as nat).take(k as int), ind@),
            decreases marks@.len() - k,
        {
            let p = marks[k];
            let ghost before = *self;
            proof {
                lemma_split_starts(before.chain@, before.original@, p as nat);
            }
            let _ = self.insert_at(p as u32, text.as_str(), true, true);
            proof {
                let mv = marks@.map_values(|q: usize| q as nat);
                assert(mv.take(k + 1).drop_last() =~= mv.take(k as int));
                assert(mv.take(k + 1).last() == p as nat);
            }
            k = k + 1;
        }
        assert(marks@.map_values(|p: usize| p as nat).take(k as int) =~= marks@.map_values(|p: usize| p as nat));
    }

    /// Indents every line of the output with `indent_str` (by default the
    /// indent the original text seems to use): the front text, the edited
    /// chunks whose start is not excluded, the unedited original text outside
    /// the excluded ranges, and the back text.
    pub fn indent(&mut self, indent_str: Option<String>, options: Option<IndentOptions>) -> (r: Result<(), Error>)
        requires
            old(self).wf(),
        ensures
            r is Ok,
            final(self).wf(),
            final(self).original@ == old(self).original@,
            final(self).sourcemap_locations@ == old(self).sourcemap_locations@,
            final(self).ignore_list == old(self).ignore_list,
            final(self).names() == old(self).names(),
            indent_str is None ==> final(self).indent_str is Some && final(self).indent_str->0@ == indent_in_effect(
                old(self),
                None,
            ),
            indent_str is Some ==> final(self).indent_str == old(self).indent_str,
            ({
                let ind = indent_in_effect(old(self), indent_str);
                let n = old(self).original@.len();
                if ind.len() == 0 {
                    &&& final(self).intro@ == old(self).intro@
                    &&& final(self).outro@ == old(self).outro@
                    &&& final(self).chain@ == old(self).chain@
                } else {
                    let f0 = !(options is Some && options->0.indent_start == Some(false));
                    let (intro, f1) = indent_text(old(self).intro@, ind, f0);
                    let pl = indent_plan(
                        old(self).chain@,
                        old(self).original@,
                        indent_exclusions(options, n),
                        ind,
                        f1,
                        old(self).chain@.len(),
                    );
                    &&& final(self).intro@ == intro
                    &&& final(self).chain@ == prepend_marks(pl.chain, n, pl.marks, ind)
                    &&& final(self).outro@ == indent_text(old(self).outro@, ind, pl.flag).0
                }
            }),
    {
        let ghost s0 = *self;
        let ind = match indent_str {
            Some(s) => chars_of(s.as_str()),
            None => {
                let _ = self._ensure_indent_str();
                match &self.indent_str {
                    Some(v) => copy_chars(v),
                    None => Vec::new(),
                }
            },
        };
        if ind.len() == 0 {
            return Ok(());
        }
        let n = self.original.len();
        let no_ranges: Vec<Vec<u32>> = Vec::new();
        proof {
            let e = Seq::<Seq<u32>>::empty();
            assert(no_ranges@.map_values(|v: Vec<u32>| v@) =~= e);
            assert(exclusion_table(e, n as nat) =~= Seq::new(n as nat, |p: int| false));
        }
        let (excl, indent_start) = match options {
            Some(o) => (
                match o.exclude {
                    Some(ranges) => build_exclusions(&ranges, n),
                    None => build_exclusions(&no_ranges, n),
                },
                !(o.indent_start == Some(false)),
            ),
            None => (build_exclusions(&no_ranges, n), true),
        };
        let (intro, f1) = indent_chars(&self.intro, &ind, indent_start);
        self.intro = intro;
        let (marks, flag) = self.chain.plan_indent(&self.original, &excl, &ind, f1);
        self.prepend_at_marks(&marks, &ind);
        let (outro, _) = indent_chars(&self.outro, &ind, flag);
        self.outro = outro;
        Ok(())
    }

    /// Whether the output holds nothing but white space.
    pub fn is_empty(&self) -> (r: bool)
        ensures
            r == forall|i: int| 0 <= i < self.rendered().len() ==> is_white_space(#[trigger] self.rendered()[i]),
    {
        let out = self.render();
        let mut i: usize = 0;
        while i < out.len()
            invariant
                i <= out@.len(),
                out@ == self.rendered(),
                forall|k: int| 0 <= k < i ==> is_white_space(#[trigger] out@[k]),
            decreases out@.len() - i,
        {
            if !white_space(out[i]) {
                return false;
            }
            i = i + 1;
        }
        true
    }

    /// Overwrites the matches of the regular expression `search_value` in the
    /// original text (all of them where `global`, else the first) with
    /// `replacement`, in which `$$`, `$&` and `$N` are expanded against each
    /// match.
    pub fn replace_by_regexp(&mut self, search_value: &str, replacement: &str, global: bool) -> (r: Result<(), Error>)
        requires
            old(self).wf(),
        ensures
            final(self).wf(),
            final(self).same_setup(old(self)),
            final(self).intro@ == old(self).intro@,
            final(self).outro@ == old(self).outro@,
            !regex_compiles(search_value@) ==> r is Err && r->Err_0.err_type == FmsErrType::Type && final(self).chain@
                == old(self).chain@ && final(self).names() == old(self).names(),
            regex_compiles(search_value@) ==> ({
                let ms = regex_matches(search_value@, old(self).original@, 0, global);
                let x = regexp_outcome(old(self).chain@, old(self).names(), old(self).original@, ms, replacement@, 0);
                &&& final(self).chain@ == x.chain
                &&& final(self).names() == x.names
                &&& (r is Ok <==> x.error is None)
                &&& (r is Err ==> r->Err_0.err_type == x.error->0)
            }),
    {
        let found = match match_all(search_value, &self.original, global) {
            Some(f) => f,
            None => {
                return Err(Error::from_reason(FmsErrType::Type, "invalid regular expression"));
            },
        };
        let rep = chars_of(replacement);
        let ghost orig = self.original@;
        let ghost ms = found@.map_values(|m: crate::pattern::FoundMatch| m@);
        let ghost target = regexp_outcome(self.chain@, self.names(), orig, ms, rep@, 0);
        let ghost start = *self;
        let n = self.original.len();
        let mut k: usize = 0;
        while k < found.len()
            invariant
                k <= found@.len(),
                self.wf(),
                self.same_setup(&start),
                self.intro@ == start.intro@,
                self.outro@ == start.outro@,
                orig == self.original@,
                n == orig.len(),
                ms == found@.map_values(|m: crate::pattern::FoundMatch| m@),
                start == *old(self),
                regex_compiles(search_value@),
                rep@ == replacement@,
                ms == regex_matches(search_value@, orig, 0, global),
                target == regexp_outcome(start.chain@, start.names(), orig, ms, replacement@, 0),
                regexp_outcome(self.chain@, self.names(), orig, ms, rep@, k as nat) == target,
            ensures
                self.wf(),
                self.same_setup(&start),
                self.intro@ == start.intro@,
                self.outro@ == start.outro@,
                self.chain@ == target.chain,
                self.names() == target.names,
                target.error is None,
            decreases found@.len() - k,
        {
            let m = &found[k];
            assert(ms[k as int] == m@);
            let ghost before = *self;
            if m.start > n || m.end > n {
                assert(regexp_outcome(before.chain@, before.names(), orig, ms, rep@, k as nat) == (EditOutcome {
                    chain: before.chain@,
                    names: before.names(),
                    error: Some(FmsErrType::Range),
                }));
                return Err(Error::from_reason(FmsErrType::Range, "match is out of bounds"));
            }
            let text = expand_replacement(&rep, &m.groups);
            let res = self.overwrite_range(m.start as i32, m.end as i32, &text, false, false);
            assert(normalized(orig.len(), m.start as int, m.end as int) == Some((m.start as nat, m.end as nat)));
            match res {
                Err(err) => {
                    return Err(err);
                },
                Ok(()) => {},
            }
            k = k + 1;
        }
        Ok(())
    }
}

/// The class of line break characters, as a pattern.
pub open spec fn line_break_class() -> Seq<char> {
    seq!['[', '\\', 'r', '\\', 'n', ']']
}

} // verus!
