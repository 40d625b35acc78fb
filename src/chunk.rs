use vstd::prelude::*;

use crate::pattern::{CompiledRegex, regex_replaced, strip_match};
use crate::text::{concat_chars, copy_chars, push_chars, same_chars, sub_chars};

verus! {

/// What a chunk holds, as mathematical values.
pub struct ChunkView {
    pub start: nat,
    pub end: nat,
    pub original: Seq<char>,
    pub content: Seq<char>,
    pub intro: Seq<char>,
    pub outro: Seq<char>,
    pub edited: bool,
    pub store_name: bool,
}

/// The text a chunk contributes to the rendered output.
pub open spec fn render_chunk(c: ChunkView) -> Seq<char> {
    c.intro + c.content + c.outro
}

/// A chunk's own consistency: its original text spans `[start, end)` and an
/// unedited chunk renders its original text.
pub open spec fn chunk_wf(c: ChunkView) -> bool {
    &&& c.start <= c.end
    &&& c.original.len() == c.end - c.start
    &&& !c.edited ==> c.content == c.original && !c.store_name
}

/// `c` after its content was replaced; unless `content_only`, the text glued
/// around it is dropped too.
pub open spec fn edit_view(c: ChunkView, content: Seq<char>, store_name: bool, content_only: bool) -> ChunkView {
    ChunkView {
        content,
        intro: if content_only { c.intro } else { Seq::empty() },
        outro: if content_only { c.outro } else { Seq::empty() },
        edited: true,
        store_name,
        ..c
    }
}

/// `c` with its original content back and no edit recorded.
pub open spec fn reset_view(c: ChunkView) -> ChunkView {
    ChunkView { content: c.original, edited: false, store_name: false, ..c }
}

/// The part of `c` before offset `k`: it keeps the text glued before `c`.
pub open spec fn split_left(c: ChunkView, k: nat) -> ChunkView {
    let at = k - c.start;
    ChunkView {
        start: c.start,
        end: k,
        original: c.original.subrange(0, at),
        content: if c.edited { Seq::empty() } else { c.original.subrange(0, at) },
        intro: c.intro,
        outro: Seq::empty(),
        edited: c.edited,
        store_name: false,
    }
}

/// The part of `c` from offset `k` on: it keeps the text glued after `c`.
pub open spec fn split_right(c: ChunkView, k: nat) -> ChunkView {
    let at = k - c.start;
    ChunkView {
        start: k,
        end: c.end,
        original: c.original.subrange(at, c.original.len() as int),
        content: if c.edited { Seq::empty() } else { c.original.subrange(at, c.original.len() as int) },
        intro: Seq::empty(),
        outro: c.outro,
        edited: c.edited,
        store_name: false,
    }
}

/// `c` with the leftmost match of `pat` removed from its leading text, then,
/// where that leaves it empty, from its content, then, where that leaves the
/// content empty, from its trailing text; with whether some text is left
/// that stops the trimming.
pub open spec fn trim_start_view(c: ChunkView, pat: Seq<char>) -> (ChunkView, bool) {
    let intro = regex_replaced(pat, c.intro);
    if intro.len() > 0 {
        (ChunkView { intro, ..c }, true)
    } else {
        let content = regex_replaced(pat, c.content);
        if content.len() > 0 {
            if content == c.content {
                (ChunkView { intro, ..c }, true)
            } else {
                (ChunkView { intro, content, edited: true, store_name: false, ..c }, true)
            }
        } else {
            let outro = regex_replaced(pat, c.outro);
            (ChunkView { intro, content: Seq::empty(), outro, edited: true, store_name: false, ..c }, outro.len() > 0)
        }
    }
}

/// The same from the other end: trailing text, content, leading text.
pub open spec fn trim_end_view(c: ChunkView, pat: Seq<char>) -> (ChunkView, bool) {
    let outro = regex_replaced(pat, c.outro);
    if outro.len() > 0 {
        (ChunkView { outro, ..c }, true)
    } else {
        let content = regex_replaced(pat, c.content);
        if content.len() > 0 {
            if content == c.content {
                (ChunkView { outro, ..c }, true)
            } else {
                (ChunkView { outro, content, edited: true, store_name: false, ..c }, true)
            }
        } else {
            let intro = regex_replaced(pat, c.intro);
            (ChunkView { outro, content: Seq::empty(), intro, edited: true, store_name: false, ..c }, intro.len() > 0)
        }
    }
}

/// The single chunk over the whole of a fresh text.
pub open spec fn initial_view(orig: Seq<char>) -> ChunkView {
    ChunkView {
        start: 0,
        end: orig.len(),
        original: orig,
        content: orig,
        intro: Seq::empty(),
        outro: Seq::empty(),
        edited: false,
        store_name: false,
    }
}

/// One span `[start, end)` of the original text together with its edit state.
pub struct Chunk {
    pub start: usize,
    pub end: usize,
    pub original: Vec<char>,
    pub content: Vec<char>,
    pub intro: Vec<char>,
    pub outro: Vec<char>,
    pub edited: bool,
    pub store_name: bool,
}

impl View for Chunk {
    type V = ChunkView;

    open spec fn view(&self) -> ChunkView {
        ChunkView {
            start: self.start as nat,
            end: self.end as nat,
            original: self.original@,
            content: self.content@,
            intro: self.intro@,
            outro: self.outro@,
            edited: self.edited,
            store_name: self.store_name,
        }
    }
}

impl Chunk {
    pub fn new(start: usize, end: usize, original: Vec<char>) -> (r: Chunk)
        requires
            start <= end,
            original@.len() == end - start,
        ensures
            r@ == (ChunkView {
                start: start as nat,
                end: end as nat,
                original: original@,
                content: original@,
                intro: Seq::empty(),
                outro: Seq::empty(),
                edited: false,
                store_name: false,
            }),
            chunk_wf(r@),
    {
        let content = copy_chars(&original);
        Chunk {
            start,
            end,
            original,
            content,
            intro: Vec::new(),
            outro: Vec::new(),
            edited: false,
            store_name: false,
        }
    }

    pub fn is_edited(&self) -> (r: bool)
        ensures
            r == self@.edited,
    {
        self.edited
    }

    pub fn contains(&self, index: usize) -> (r: bool)
        ensures
            r == (self.start <= index < self.end),
    {
        self.start <= index && index < self.end
    }

    /// Glues `content` to the end of the text that follows this chunk.
    pub fn append_left(&mut self, content: &Vec<char>)
        ensures
            final(self)@ == (ChunkView { outro: old(self)@.outro + content@, ..old(self)@ }),
    {
        push_chars(&mut self.outro, content);
    }

    /// Glues `content` to the front of the text that follows this chunk.
    pub fn prepend_left(&mut self, content: &Vec<char>)
        ensures
            final(self)@ == (ChunkView { outro: content@ + old(self)@.outro, ..old(self)@ }),
    {
        self.outro = concat_chars(content, &self.outro);
    }

    /// Glues `content` to the end of the text that precedes this chunk.
    pub fn append_right(&mut self, content: &Vec<char>)
        ensures
            final(self)@ == (ChunkView { intro: old(self)@.intro + content@, ..old(self)@ }),
    {
        push_chars(&mut self.intro, content);
    }

    /// Glues `content` to the front of the text that precedes this chunk.
    pub fn prepend_right(&mut self, content: &Vec<char>)
        ensures
            final(self)@ == (ChunkView { intro: content@ + old(self)@.intro, ..old(self)@ }),
    {
        self.intro = concat_chars(content, &self.intro);
    }

    pub fn edit(&mut self, content: Vec<char>, store_name: bool, content_only: bool)
        ensures
            final(self)@ == edit_view(old(self)@, content@, store_name, content_only),
    {
        self.content = content;
        if !content_only {
            self.intro = Vec::new();
            self.outro = Vec::new();
        }
        self.store_name = store_name;
        self.edited = true;
    }

    pub fn reset(&mut self)
        ensures
            final(self)@ == reset_view(old(self)@),
    {
        self.content = copy_chars(&self.original);
        self.store_name = false;
        self.edited = false;
    }

    /// Cuts this chunk at `index`: it keeps `[start, index)` and the part
    /// `[index, end)` is returned.
    pub fn split(&mut self, index: usize) -> (r: Chunk)
        requires
            chunk_wf(old(self)@),
            old(self).start < index < old(self).end,
        ensures
            final(self)@ == split_left(old(self)@, index as nat),
            r@ == split_right(old(self)@, index as nat),
            chunk_wf(final(self)@),
            chunk_wf(r@),
    {
        let at = index - self.start;
        let before = sub_chars(&self.original, 0, at);
        let after = sub_chars(&self.original, at, self.original.len());
        let edited = self.edited;
        let right_content = if edited { Vec::new() } else { copy_chars(&after) };
        let mut outro: Vec<char> = Vec::new();
        std::mem::swap(&mut outro, &mut self.outro);
        let right = Chunk {
            start: index,
            end: self.end,
            original: after,
            content: right_content,
            intro: Vec::new(),
            outro,
            edited,
            store_name: false,
        };
        self.content = if edited { Vec::new() } else { copy_chars(&before) };
        self.original = before;
        self.end = index;
        self.store_name = false;
        right
    }

    /// A copy of this chunk.
    pub fn self_clone(&self) -> (r: Chunk)
        ensures
            r@ == self@,
    {
        Chunk {
            start: self.start,
            end: self.end,
            original: copy_chars(&self.original),
            content: copy_chars(&self.content),
            intro: copy_chars(&self.intro),
            outro: copy_chars(&self.outro),
            edited: self.edited,
            store_name: self.store_name,
        }
    }

    /// Removes the leftmost match of `pattern` from the start of this chunk's
    /// text; returns whether text is left that stops the trimming.
    pub fn trim_start(&mut self, re: &CompiledRegex) -> (r: bool)
        ensures
            (final(self)@, r) == trim_start_view(old(self)@, re.pattern()),
    {
        self.intro = strip_match(re, &self.intro);
        if self.intro.len() > 0 {
            return true;
        }
        let content = strip_match(re, &self.content);
        if content.len() > 0 {
            if !same_chars(&content, &self.content) {
                self.content = content;
                self.edited = true;
                self.store_name = false;
            }
            return true;
        }
        self.content = Vec::new();
        self.edited = true;
        self.store_name = false;
        self.outro = strip_match(re, &self.outro);
        self.outro.len() > 0
    }

    /// Removes the leftmost match of `pattern` from the end of this chunk's
    /// text; returns whether text is left that stops the trimming.
    pub fn trim_end(&mut self, re: &CompiledRegex) -> (r: bool)
        ensures
            (final(self)@, r) == trim_end_view(old(self)@, re.pattern()),
    {
        self.outro = strip_match(re, &self.outro);
        if self.outro.len() > 0 {
            return true;
        }
        let content = strip_match(re, &self.content);
        if content.len() > 0 {
            if !same_chars(&content, &self.content) {
                self.content = content;
                self.edited = true;
                self.store_name = false;
            }
            return true;
        }
        self.content = Vec::new();
        self.edited = true;
        self.store_name = false;
        self.intro = strip_match(re, &self.intro);
        self.intro.len() > 0
    }

    /// Replaces the content and nothing else.
    pub fn set_content(&mut self, content: Vec<char>)
        ensures
            final(self)@ == (ChunkView { content: content@, ..old(self)@ }),
    {
        self.content = content;
    }
}

} // verus!
