use vstd::prelude::*;

use crate::sourcemap::fits_vlq;
use crate::text::{chars_of, copy_bools};

verus! {

/// The index of the one source file that the maps describe.
pub const SOURCE_INDEX: i64 = 0;

/// One mapping: a column of the output and the place of the original text
/// it comes from, with the index of a recorded name where `has_name`.
#[derive(Clone, Copy, PartialEq, Eq, Structural, Debug)]
pub struct Segment {
    pub generated_column: i64,
    pub source_index: i64,
    pub original_line: i64,
    pub original_column: i64,
    pub has_name: bool,
    pub name: i64,
}

pub open spec fn seg_bounded(s: Segment) -> bool {
    &&& 0 <= s.generated_column <= POSITION_LIMIT
    &&& 0 <= s.source_index <= POSITION_LIMIT
    &&& 0 <= s.original_line <= POSITION_LIMIT
    &&& 0 <= s.original_column <= POSITION_LIMIT
    &&& 0 <= s.name <= POSITION_LIMIT
}

pub open spec fn raw_bounded(raw: Seq<Seq<Segment>>) -> bool {
    forall|i: int, j: int| 0 <= i < raw.len() && 0 <= j < raw[i].len() ==> seg_bounded(#[trigger] raw[i][j])
}

/// The mappings gathered so far, one list per output line, and the output
/// position reached.
pub struct MapState {
    pub raw: Seq<Seq<Segment>>,
    pub line: nat,
    pub col: nat,
}

pub open spec fn segment_at(col: nat, oline: nat, ocol: nat, name: Option<nat>) -> Segment {
    Segment {
        generated_column: col as i64,
        source_index: SOURCE_INDEX,
        original_line: oline as i64,
        original_column: ocol as i64,
        has_name: name is Some,
        name: if name is Some { name->0 as i64 } else { 0 },
    }
}

/// `raw` with enough lines that line `line` exists.
pub open spec fn pad_to(raw: Seq<Seq<Segment>>, line: nat) -> Seq<Seq<Segment>> {
    if raw.len() > line {
        raw
    } else {
        raw + Seq::new((line + 1 - raw.len()) as nat, |i: int| Seq::<Segment>::empty())
    }
}

/// `st` with `seg` added to the current output line.
pub open spec fn push_seg(st: MapState, seg: Segment) -> MapState {
    let p = pad_to(st.raw, st.line);
    MapState { raw: p.update(st.line as int, p[st.line as int].push(seg)), ..st }
}

/// The output position after one more character of plain text; a line break
/// opens a new, empty line of mappings.
pub open spec fn advance_char(st: MapState, c: char) -> MapState {
    if c == '\n' {
        MapState { raw: st.raw.push(Seq::empty()), line: st.line + 1, col: 0 }
    } else {
        MapState { col: st.col + 1, ..st }
    }
}

/// `st` after the plain text `t`.
pub open spec fn advance_text(st: MapState, t: Seq<char>) -> MapState
    decreases t.len(),
{
    if t.len() == 0 {
        st
    } else {
        advance_char(advance_text(st, t.drop_last()), t.last())
    }
}

/// One character of replaced content: the first character of each of its
/// lines gets a mapping to the chunk's original place.
pub open spec fn edited_step(w: (MapState, bool), c: char, oline: nat, ocol: nat, name: Option<nat>) -> (MapState, bool) {
    let st = w.0;
    if c == '\n' {
        (MapState { line: st.line + 1, col: 0, ..st }, true)
    } else {
        let st1 = if w.1 { push_seg(st, segment_at(st.col, oline, ocol, name)) } else { st };
        (MapState { col: st1.col + 1, ..st1 }, false)
    }
}

pub open spec fn edited_walk(st: MapState, t: Seq<char>, oline: nat, ocol: nat, name: Option<nat>) -> (MapState, bool)
    decreases t.len(),
{
    if t.len() == 0 {
        (st, true)
    } else {
        edited_step(edited_walk(st, t.drop_last(), oline, ocol, name), t.last(), oline, ocol, name)
    }
}

/// The state of a walk over unedited original text.
pub struct Walk {
    pub st: MapState,
    pub oline: nat,
    pub ocol: nat,
    pub first: bool,
}

pub open spec fn marked(marks: Seq<bool>, p: nat) -> bool {
    p < marks.len() && marks[p as int]
}

/// One character of unedited original text: a mapping where `emit`, then the
/// output and the original positions both move on.
pub open spec fn unedited_step(w: Walk, c: char, emit: bool) -> Walk {
    let st1 = if emit { push_seg(w.st, segment_at(w.st.col, w.oline, w.ocol, None)) } else { w.st };
    if c == '\n' {
        Walk { st: MapState { line: st1.line + 1, col: 0, ..st1 }, oline: w.oline + 1, ocol: 0, first: true }
    } else {
        Walk { st: MapState { col: st1.col + 1, ..st1 }, oline: w.oline, ocol: w.ocol + 1, first: false }
    }
}

/// The walk over the `cnt` original characters from `start` on: every
/// character maps where `hires`, else the first of each line and the marked
/// offsets.
pub open spec fn unedited_walk(w0: Walk, orig: Seq<char>, start: nat, cnt: nat, hires: bool, marks: Seq<bool>) -> Walk
    decreases cnt,
{
    if cnt == 0 {
        w0
    } else {
        let w = unedited_walk(w0, orig, start, (cnt - 1) as nat, hires, marks);
        let p = start + cnt - 1;
        unedited_step(w, orig[p], hires || w.first || marked(marks, p as nat))
    }
}

/// The mappings after one chunk: its leading text, its content, its
/// trailing text.
pub open spec fn chunk_mappings(
    st: MapState,
    orig: Seq<char>,
    content: Seq<char>,
    intro: Seq<char>,
    outro: Seq<char>,
    oline: nat,
    ocol: nat,
    start: nat,
    end: nat,
    edited: bool,
    name: Option<nat>,
    hires: bool,
    marks: Seq<bool>,
) -> MapState {
    let s1 = advance_text(st, intro);
    let s2 = if edited {
        edited_walk(s1, content, oline, ocol, name).0
    } else {
        unedited_walk(Walk { st: s1, oline, ocol, first: true }, orig, start, (end - start) as nat, hires, marks).st
    };
    advance_text(s2, outro)
}

/// What the previous mapping held: the column within the current line and the
/// source, line, column and name of the mapping before in the whole stream.
pub struct Carry {
    pub gcol: int,
    pub src: int,
    pub oline: int,
    pub ocol: int,
    pub name: int,
}

pub open spec fn zero_carry() -> Carry {
    Carry { gcol: 0, src: 0, oline: 0, ocol: 0, name: 0 }
}

/// A mapping as differences from the one before.
pub open spec fn seg_delta(s: Segment, c: Carry) -> Seq<int> {
    let base = seq![
        s.generated_column - c.gcol,
        s.source_index - c.src,
        s.original_line - c.oline,
        s.original_column - c.ocol,
    ];
    if s.has_name {
        base.push(s.name - c.name)
    } else {
        base
    }
}

pub open spec fn seg_carry(s: Segment, c: Carry) -> Carry {
    Carry {
        gcol: s.generated_column as int,
        src: s.source_index as int,
        oline: s.original_line as int,
        ocol: s.original_column as int,
        name: if s.has_name { s.name as int } else { c.name },
    }
}

pub open spec fn line_carry(line: Seq<Segment>, c: Carry) -> Carry
    decreases line.len(),
{
    if line.len() == 0 {
        c
    } else {
        seg_carry(line.last(), line_carry(line.drop_last(), c))
    }
}

pub open spec fn line_deltas(line: Seq<Segment>, c: Carry) -> Seq<Seq<int>>
    decreases line.len(),
{
    if line.len() == 0 {
        Seq::empty()
    } else {
        line_deltas(line.drop_last(), c).push(seg_delta(line.last(), line_carry(line.drop_last(), c)))
    }
}

/// What carries over to a new line: all but the column.
pub open spec fn new_line(c: Carry) -> Carry {
    Carry { gcol: 0, ..c }
}

pub open spec fn raw_carry(raw: Seq<Seq<Segment>>) -> Carry
    decreases raw.len(),
{
    if raw.len() == 0 {
        zero_carry()
    } else {
        line_carry(raw.last(), new_line(raw_carry(raw.drop_last())))
    }
}

/// The mappings with each one written as differences from the one before:
/// the column from the one before on the same line, the rest from the one
/// before in the whole stream.
pub open spec fn raw_deltas(raw: Seq<Seq<Segment>>) -> Seq<Seq<Seq<int>>>
    decreases raw.len(),
{
    if raw.len() == 0 {
        Seq::empty()
    } else {
        raw_deltas(raw.drop_last()).push(line_deltas(raw.last(), new_line(raw_carry(raw.drop_last()))))
    }
}

pub open spec fn ints(v: Vec<i64>) -> Seq<int> {
    v@.map_values(|x: i64| x as int)
}

pub open spec fn line_view(l: Vec<Vec<i64>>) -> Seq<Seq<int>> {
    l@.map_values(|v: Vec<i64>| ints(v))
}

/// A mappings value as integers.
pub open spec fn mappings_view(m: Vec<Vec<Vec<i64>>>) -> Seq<Seq<Seq<int>>> {
    m@.map_values(|l: Vec<Vec<i64>>| line_view(l))
}

pub open spec fn carry_bounded(c: Carry) -> bool {
    &&& 0 <= c.gcol <= POSITION_LIMIT
    &&& 0 <= c.src <= POSITION_LIMIT
    &&& 0 <= c.oline <= POSITION_LIMIT
    &&& 0 <= c.ocol <= POSITION_LIMIT
    &&& 0 <= c.name <= POSITION_LIMIT
}

/// Builds the mappings of one output, chunk by chunk.
pub struct MappingsFacade {
    pub raw: Vec<Vec<Segment>>,
    pub generated_code_line: usize,
    pub generated_code_column: usize,
    pub hires: bool,
    pub sourcemap_locations: Vec<bool>,
}

impl View for MappingsFacade {
    type V = MapState;

    open spec fn view(&self) -> MapState {
        MapState {
            raw: self.raw@.map_values(|l: Vec<Segment>| l@),
            line: self.generated_code_line as nat,
            col: self.generated_code_column as nat,
        }
    }
}

/// The largest output position the maps count to.
pub const POSITION_LIMIT: usize = 0xffff_ffff;

impl MappingsFacade {
    pub fn new(hires: bool, sourcemap_locations: &Vec<bool>) -> (r: MappingsFacade)
        ensures
            r@.raw.len() == 0,
            r@.line == 0,
            r@.col == 0,
            r.hires == hires,
            r.sourcemap_locations@ == sourcemap_locations@,
    {
        let r = MappingsFacade {
            raw: Vec::new(),
            generated_code_line: 0,
            generated_code_column: 0,
            hires,
            sourcemap_locations: copy_bools(sourcemap_locations),
        };
        assert(r@.raw =~= Seq::<Seq<Segment>>::empty());
        r
    }

    fn push_segment(&mut self, seg: Segment)
        requires
            raw_bounded(old(self)@.raw),
            seg_bounded(seg),
        ensures
            raw_bounded(final(self)@.raw),
            final(self)@ == push_seg(old(self)@, seg),
            final(self).hires == old(self).hires,
            final(self).sourcemap_locations == old(self).sourcemap_locations,
    {
        let ghost r0 = old(self)@.raw;
        let line = self.generated_code_line;
        while self.raw.len() <= line
            invariant
                line == self.generated_code_line,
                self.generated_code_column == old(self).generated_code_column,
                self.hires == old(self).hires,
                self.sourcemap_locations == old(self).sourcemap_locations,
                r0.len() <= self@.raw.len(),
                r0.len() <= line + 1 ==> self@.raw.len() <= line + 1,
                r0.len() > line ==> self@.raw == r0,
                self@.raw == r0 + Seq::new((self@.raw.len() - r0.len()) as nat, |i: int| Seq::<Segment>::empty()),
                raw_bounded(r0),
            decreases line + 1 - self.raw@.len(),
        {
            let ghost prev = self@.raw;
            self.raw.push(Vec::new());
            assert(self@.raw =~= prev.push(Seq::empty()));
            assert(self@.raw =~= r0 + Seq::new((self@.raw.len() - r0.len()) as nat, |i: int| Seq::<Segment>::empty()));
        }
        let ghost padded = self@.raw;
        assert(padded =~= pad_to(r0, line as nat));
        self.raw[line].push(seg);
        assert(self@.raw =~= padded.update(line as int, padded[line as int].push(seg)));
        assert forall|i: int, j: int| 0 <= i < self@.raw.len() && 0 <= j < self@.raw[i].len() implies seg_bounded(
            #[trigger] self@.raw[i][j],
        ) by {
            if i < r0.len() && !(i == line && j == padded[i].len()) {
                assert(self@.raw[i][j] == r0[i][j]);
            }
        }
    }

    pub fn advance_chars(&mut self, t: &Vec<char>)
        requires
            raw_bounded(old(self)@.raw),
            old(self)@.line + old(self)@.col + t@.len() <= POSITION_LIMIT,
        ensures
            raw_bounded(final(self)@.raw),
            final(self)@ == advance_text(old(self)@, t@),
            final(self)@.line + final(self)@.col <= old(self)@.line + old(self)@.col + t@.len(),
            final(self).hires == old(self).hires,
            final(self).sourcemap_locations == old(self).sourcemap_locations,
    {
        let ghost st0 = self@;
        let mut i: usize = 0;
        while i < t.len()
            invariant
                i <= t@.len(),
                self@ == advance_text(st0, t@.take(i as int)),
                raw_bounded(self@.raw),
                self@.line + self@.col <= st0.line + st0.col + i,
                st0.line + st0.col + t@.len() <= POSITION_LIMIT,
                self.hires == old(self).hires,
                self.sourcemap_locations == old(self).sourcemap_locations,
            decreases t@.len() - i,
        {
            let ghost prev = self@;
            if t[i] == '\n' {
                self.generated_code_line = self.generated_code_line + 1;
                self.generated_code_column = 0;
                self.raw.push(Vec::new());
                assert(self@.raw =~= prev.raw.push(Seq::empty()));
                assert forall|a: int, b: int| 0 <= a < self@.raw.len() && 0 <= b < self@.raw[a].len() implies seg_bounded(
                    #[trigger] self@.raw[a][b],
                ) by {
                    assert(self@.raw[a] == prev.raw[a]);
                }
            } else {
                self.generated_code_column = self.generated_code_column + 1;
            }
            assert(t@.take(i + 1).drop_last() =~= t@.take(i as int));
            i = i + 1;
        }
        assert(t@.take(i as int) =~= t@);
    }

    /// Moves the output position over the plain text `str`.
    pub fn advance(&mut self, str: &str)
        requires
            raw_bounded(old(self)@.raw),
            old(self)@.line + old(self)@.col + str@.len() <= POSITION_LIMIT,
        ensures
            raw_bounded(final(self)@.raw),
            final(self)@ == advance_text(old(self)@, str@),
            final(self)@.line + final(self)@.col <= old(self)@.line + old(self)@.col + str@.len(),
            final(self).hires == old(self).hires,
            final(self).sourcemap_locations == old(self).sourcemap_locations,
    {
        let t = chars_of(str);
        self.advance_chars(&t);
    }

    fn add_edited(&mut self, content: &Vec<char>, oline: usize, ocol: usize, name: Option<usize>)
        requires
            raw_bounded(old(self)@.raw),
            old(self)@.line + old(self)@.col + content@.len() <= POSITION_LIMIT,
            oline <= POSITION_LIMIT,
            ocol <= POSITION_LIMIT,
            name is Some ==> name->0 <= POSITION_LIMIT,
        ensures
            raw_bounded(final(self)@.raw),
            final(self)@ == edited_walk(
                old(self)@,
                content@,
                oline as nat,
                ocol as nat,
                if name is Some { Some(name->0 as nat) } else { None },
            ).0,
            final(self)@.line + final(self)@.col <= old(self)@.line + old(self)@.col + content@.len(),
            final(self).hires == old(self).hires,
            final(self).sourcemap_locations == old(self).sourcemap_locations,
    {
        let ghost st0 = self@;
        let ghost nm = if name is Some { Some(name->0 as nat) } else { None };
        let mut at_start = true;
        let mut i: usize = 0;
        while i < content.len()
            invariant
                i <= content@.len(),
                (self@, at_start) == edited_walk(st0, content@.take(i as int), oline as nat, ocol as nat, nm),
                raw_bounded(self@.raw),
                self@.line + self@.col <= st0.line + st0.col + i,
                st0.line + st0.col + content@.len() <= POSITION_LIMIT,
                oline <= POSITION_LIMIT,
                ocol <= POSITION_LIMIT,
                name is Some ==> name->0 <= POSITION_LIMIT,
                nm == if name is Some { Some(name->0 as nat) } else { None },
                self.hires == old(self).hires,
                self.sourcemap_locations == old(self).sourcemap_locations,
            decreases content@.len() - i,
        {
            if content[i] == '\n' {
                self.generated_code_line = self.generated_code_line + 1;
                self.generated_code_column = 0;
                at_start = true;
            } else {
                if at_start {
                    let seg = Segment {
                        generated_column: self.generated_code_column as i64,
                        source_index: SOURCE_INDEX,
                        original_line: oline as i64,
                        original_column: ocol as i64,
                        has_name: name.is_some(),
                        name: match name {
                            Some(x) => x as i64,
                            None => 0,
                        },
                    };
                    assert(seg == segment_at(self@.col, oline as nat, ocol as nat, nm));
                    self.push_segment(seg);
                }
                self.generated_code_column = self.generated_code_column + 1;
                at_start = false;
            }
            assert(content@.take(i + 1).drop_last() =~= content@.take(i as int));
            i = i + 1;
        }
        assert(content@.take(i as int) =~= content@);
    }

    fn add_unedited(&mut self, orig: &Vec<char>, start: usize, end: usize, oline: usize, ocol: usize)
        requires
            raw_bounded(old(self)@.raw),
            start <= end <= orig@.len(),
            old(self)@.line + old(self)@.col + (end - start) <= POSITION_LIMIT,
            oline + ocol + (end - start) <= POSITION_LIMIT,
        ensures
            raw_bounded(final(self)@.raw),
            final(self)@ == unedited_walk(
                (Walk { st: old(self)@, oline: oline as nat, ocol: ocol as nat, first: true }),
                orig@,
                start as nat,
                (end - start) as nat,
                old(self).hires,
                old(self).sourcemap_locations@,
            ).st,
            final(self)@.line + final(self)@.col <= old(self)@.line + old(self)@.col + (end - start),
            final(self).hires == old(self).hires,
            final(self).sourcemap_locations == old(self).sourcemap_locations,
    {
        let ghost w0 = Walk { st: self@, oline: oline as nat, ocol: ocol as nat, first: true };
        let ghost marks = self.sourcemap_locations@;
        let mut o_line = oline;
        let mut o_column = ocol;
        let mut first = true;
        let mut p: usize = start;
        while p < end
            invariant
                start <= p <= end <= orig@.len(),
                (Walk { st: self@, oline: o_line as nat, ocol: o_column as nat, first }) == unedited_walk(
                    w0,
                    orig@,
                    start as nat,
                    (p - start) as nat,
                    self.hires,
                    marks,
                ),
                self@.line + self@.col <= w0.st.line + w0.st.col + (p - start),
                raw_bounded(self@.raw),
                o_line + o_column <= oline + ocol + (p - start),
                w0.st.line + w0.st.col + (end - start) <= POSITION_LIMIT,
                oline + ocol + (end - start) <= POSITION_LIMIT,
                self.hires == old(self).hires,
                self.sourcemap_locations == old(self).sourcemap_locations,
                marks == self.sourcemap_locations@,
            decreases end - p,
        {
            let is_marked = p < self.sourcemap_locations.len() && self.sourcemap_locations[p];
            if self.hires || first || is_marked {
                let seg = Segment {
                    generated_column: self.generated_code_column as i64,
                    source_index: SOURCE_INDEX,
                    original_line: o_line as i64,
                    original_column: o_column as i64,
                    has_name: false,
                    name: 0,
                };
                assert(seg == segment_at(self@.col, o_line as nat, o_column as nat, None));
                self.push_segment(seg);
            }
            if orig[p] == '\n' {
                o_line = o_line + 1;
                self.generated_code_line = self.generated_code_line + 1;
                o_column = 0;
                self.generated_code_column = 0;
                first = true;
            } else {
                o_column = o_column + 1;
                self.generated_code_column = self.generated_code_column + 1;
                first = false;
            }
            assert((p + 1 - start) as nat - 1 == (p - start) as nat);
            p = p + 1;
        }
    }

    /// Adds the mappings of one chunk: its leading text, its content (one
    /// mapping per line where edited, per character or line start where
    /// not), its trailing text.
    pub fn add_chunk(
        &mut self,
        orig: &Vec<char>,
        content: &Vec<char>,
        intro: &Vec<char>,
        outro: &Vec<char>,
        origin: (usize, usize),
        span: (usize, usize),
        edited: bool,
        name: Option<usize>,
    )
        requires
            raw_bounded(old(self)@.raw),
            span.0 <= span.1 <= orig@.len(),
            old(self)@.line + old(self)@.col + intro@.len() + (if edited { content@.len() } else { (span.1 - span.0) as nat }) + outro@.len() <= POSITION_LIMIT,
            origin.0 + origin.1 + (span.1 - span.0) <= POSITION_LIMIT,
            name is Some ==> name->0 <= POSITION_LIMIT,
        ensures
            raw_bounded(final(self)@.raw),
            final(self)@ == chunk_mappings(
                old(self)@,
                orig@,
                content@,
                intro@,
                outro@,
                origin.0 as nat,
                origin.1 as nat,
                span.0 as nat,
                span.1 as nat,
                edited,
                if name is Some { Some(name->0 as nat) } else { None },
                old(self).hires,
                old(self).sourcemap_locations@,
            ),
            final(self)@.line + final(self)@.col <= old(self)@.line + old(self)@.col + intro@.len() + (if edited {
                content@.len()
            } else {
                (span.1 - span.0) as nat
            }) + outro@.len(),
            final(self).hires == old(self).hires,
            final(self).sourcemap_locations == old(self).sourcemap_locations,
    {
        self.advance_chars(intro);
        if edited {
            self.add_edited(content, origin.0, origin.1, name);
        } else {
            self.add_unedited(orig, span.0, span.1, origin.0, origin.1);
        }
        self.advance_chars(outro);
    }

    /// Adds the mappings of one chunk given as text; `name_index` is
    /// `usize::MAX` where the chunk records no name.
    pub fn add_mappings(
        &mut self,
        string_original: &str,
        chunk_content: &str,
        chunk_intro: &str,
        chunk_outro: &str,
        origin: (u32, u32),
        span: (u32, u32),
        chunk_is_edited: bool,
        name_index: usize,
    )
        requires
            raw_bounded(old(self)@.raw),
            span.0 <= span.1 <= string_original@.len(),
            old(self)@.line + old(self)@.col + chunk_intro@.len() + (if chunk_is_edited {
                chunk_content@.len()
            } else {
                (span.1 - span.0) as nat
            }) + chunk_outro@.len() <= POSITION_LIMIT,
            origin.0 + origin.1 + (span.1 - span.0) <= POSITION_LIMIT,
            name_index < usize::MAX ==> name_index <= POSITION_LIMIT,
        ensures
            raw_bounded(final(self)@.raw),
            final(self)@ == chunk_mappings(
                old(self)@,
                string_original@,
                chunk_content@,
                chunk_intro@,
                chunk_outro@,
                origin.0 as nat,
                origin.1 as nat,
                span.0 as nat,
                span.1 as nat,
                chunk_is_edited,
                if name_index < usize::MAX { Some(name_index as nat) } else { None },
                old(self).hires,
                old(self).sourcemap_locations@,
            ),
    {
        let orig = chars_of(string_original);
        let content = chars_of(chunk_content);
        let intro = chars_of(chunk_intro);
        let outro = chars_of(chunk_outro);
        let name = if name_index < usize::MAX { Some(name_index) } else { None };
        self.add_chunk(
            &orig,
            &content,
            &intro,
            &outro,
            (origin.0 as usize, origin.1 as usize),
            (span.0 as usize, span.1 as usize),
            chunk_is_edited,
            name,
        );
    }

    /// The mappings gathered, each written as differences from the one
    /// before.
    pub fn get(&self) -> (r: Vec<Vec<Vec<i64>>>)
        requires
            raw_bounded(self@.raw),
        ensures
            mappings_view(r) == raw_deltas(self@.raw),
            fits_vlq(mappings_view(r)),
    {
        let ghost raw = self@.raw;
        let mut out: Vec<Vec<Vec<i64>>> = Vec::new();
        let mut src: i64 = 0;
        let mut oline: i64 = 0;
        let mut ocol: i64 = 0;
        let mut name: i64 = 0;
        let mut i: usize = 0;
        while i < self.raw.len()
            invariant
                i <= raw.len(),
                raw == self@.raw,
                raw_bounded(raw),
                mappings_view(out) == raw_deltas(raw.take(i as int)),
                fits_vlq(mappings_view(out)),
                (Carry { gcol: 0, src: src as int, oline: oline as int, ocol: ocol as int, name: name as int })
                    == new_line(raw_carry(raw.take(i as int))),
                carry_bounded(Carry { gcol: 0, src: src as int, oline: oline as int, ocol: ocol as int, name: name as int }),
            decreases raw.len() - i,
        {
            let ghost c0 = Carry { gcol: 0, src: src as int, oline: oline as int, ocol: ocol as int, name: name as int };
            let line = &self.raw[i];
            let ghost segs = raw[i as int];
            assert(segs == line@);
            let mut lv: Vec<Vec<i64>> = Vec::new();
            let mut gcol: i64 = 0;
            let mut j: usize = 0;
            while j < line.len()
                invariant
                    j <= segs.len(),
                    segs == line@,
                    forall|b: int| 0 <= b < segs.len() ==> seg_bounded(#[trigger] segs[b]),
                    line_view(lv) == line_deltas(segs.take(j as int), c0),
                    forall|a: int, b: int|
                        0 <= a < line_view(lv).len() && 0 <= b < line_view(lv)[a].len() ==> #[trigger] line_view(lv)[a][b] > i64::MIN,
                    (Carry { gcol: gcol as int, src: src as int, oline: oline as int, ocol: ocol as int, name: name as int })
                        == line_carry(segs.take(j as int), c0),
                    carry_bounded(Carry { gcol: gcol as int, src: src as int, oline: oline as int, ocol: ocol as int, name: name as int }),
                decreases segs.len() - j,
            {
                let seg = line[j];
                assert(seg_bounded(segs[j as int]));
                let ghost c = Carry { gcol: gcol as int, src: src as int, oline: oline as int, ocol: ocol as int, name: name as int };
                let mut d: Vec<i64> = Vec::new();
                d.push(seg.generated_column - gcol);
                d.push(seg.source_index - src);
                d.push(seg.original_line - oline);
                d.push(seg.original_column - ocol);
                if seg.has_name {
                    d.push(seg.name - name);
                    name = seg.name;
                }
                assert(ints(d) =~= seg_delta(seg, c));
                gcol = seg.generated_column;
                src = seg.source_index;
                oline = seg.original_line;
                ocol = seg.original_column;
                let ghost lv0 = lv;
                lv.push(d);
                proof {
                    assert(segs.take(j + 1).drop_last() =~= segs.take(j as int));
                    assert(segs.take(j + 1).last() == seg);
                    assert(line_view(lv) =~= line_view(lv0).push(ints(d)));
                    assert forall|a: int, b: int|
                        0 <= a < line_view(lv).len() && 0 <= b < line_view(lv)[a].len() implies #[trigger] line_view(lv)[a][b] > i64::MIN by {
                        if a < line_view(lv0).len() {
                            assert(line_view(lv)[a] == line_view(lv0)[a]);
                        }
                    }
                }
                j = j + 1;
            }
            assert(segs.take(j as int) =~= segs);
            let ghost out0 = out;
            out.push(lv);
            gcol = 0;
            proof {
                assert(raw.take(i + 1).drop_last() =~= raw.take(i as int));
                assert(raw.take(i + 1).last() == segs);
                assert(mappings_view(out) =~= mappings_view(out0).push(line_view(lv)));
                assert forall|a: int, b: int, k: int|
                    0 <= a < mappings_view(out).len() && 0 <= b < mappings_view(out)[a].len() && 0 <= k < mappings_view(
                        out,
                    )[a][b].len() implies #[trigger] mappings_view(out)[a][b][k] > i64::MIN by {
                    if a < mappings_view(out0).len() {
                        assert(mappings_view(out)[a] == mappings_view(out0)[a]);
                    }
                }
            }
            i = i + 1;
        }
        assert(raw.take(i as int) =~= raw);
        out
    }
}

} // verus!
