use vstd::prelude::*;

use crate::text::{chars_of, copy_chars, string_of, sub_chars};

verus! {

/// Whether `pattern` is a regular expression that the `regex` crate accepts.
pub uninterp spec fn regex_compiles(pattern: Seq<char>) -> bool;

/// `text` with the leftmost match of `pattern` removed.
pub uninterp spec fn regex_replaced(pattern: Seq<char>, text: Seq<char>) -> Seq<char>;

/// The spans (in bytes) of the leftmost match of `pattern` in `text` and of
/// each of its groups; `None` where there is no match.
pub uninterp spec fn regex_captures(pattern: Seq<char>, text: Seq<char>) -> Option<Seq<Option<(nat, nat)>>>;

pub open spec fn span_view(g: Option<(usize, usize)>) -> Option<(nat, nat)> {
    match g {
        Some((a, b)) => Some((a as nat, b as nat)),
        None => None,
    }
}

#[verifier::external_type_specification]
#[verifier::external_body]
pub struct ExRegex(regex::Regex);

/// A compiled regular expression together with the pattern it came from.
pub struct CompiledRegex {
    regex: regex::Regex,
    source: String,
}

impl CompiledRegex {
    /// The pattern the expression was compiled from.
    pub closed spec fn pattern(&self) -> Seq<char> {
        self.source@
    }
}

/// Relies on `regex::Regex::new`: it accepts a pattern or not, depending on
/// the pattern alone.
#[verifier::external_body]
pub fn compile_regex(pattern: &str) -> (r: Option<CompiledRegex>)
    ensures
        (r is Some) == regex_compiles(pattern@),
        r is Some ==> r->0.pattern() == pattern@,
{
    match regex::Regex::new(pattern) {
        Ok(regex) => Some(CompiledRegex { regex, source: pattern.to_string() }),
        Err(_) => None,
    }
}

/// Relies on `regex::Regex::replace` with an empty replacement: the text with
/// the leftmost match removed, which depends on the pattern and the text
/// alone.
#[verifier::external_body]
pub fn remove_first_match(re: &CompiledRegex, text: &str) -> (r: String)
    ensures
        r@ == regex_replaced(re.pattern(), text@),
{
    re.regex.replace(text, "").into_owned()
}

/// Relies on `regex::Regex::captures`: the byte spans of the leftmost match
/// and of its groups, which depend on the pattern and the text alone.
#[verifier::external_body]
pub fn capture_spans(re: &CompiledRegex, text: &str) -> (r: Option<Vec<Option<(usize, usize)>>>)
    ensures
        (r is Some) == (regex_captures(re.pattern(), text@) is Some),
        r is Some ==> r->0@.map_values(|g: Option<(usize, usize)>| span_view(g)) == regex_captures(
            re.pattern(),
            text@,
        )->0,
{
    re.regex.captures(text).map(|caps| caps.iter().map(|g| g.map(|m| (m.start(), m.end()))).collect())
}

/// `t` with the leftmost match of `re` removed.
pub fn strip_match(re: &CompiledRegex, t: &Vec<char>) -> (r: Vec<char>)
    ensures
        r@ == regex_replaced(re.pattern(), t@),
{
    let s = string_of(copy_chars(t));
    let x = remove_first_match(re, s.as_str());
    chars_of(x.as_str())
}

/// The number of bytes UTF-8 takes for `c`.
pub open spec fn utf8_len(c: char) -> nat {
    let u = c as u32;
    if u < 0x80 {
        1
    } else if u < 0x800 {
        2
    } else if u < 0x10000 {
        3
    } else {
        4
    }
}

/// The number of bytes UTF-8 takes for `s`.
pub open spec fn byte_len(s: Seq<char>) -> nat
    decreases s.len(),
{
    if s.len() == 0 {
        0
    } else {
        byte_len(s.drop_last()) + utf8_len(s.last())
    }
}

/// The character offset of `s` that lies `b` bytes in, if one does.
pub open spec fn char_offset(s: Seq<char>, b: nat) -> Option<nat> {
    if exists|i: nat| i <= s.len() && byte_len(s.take(i as int)) == b {
        Some(choose|i: nat| i <= s.len() && byte_len(s.take(i as int)) == b)
    } else {
        None
    }
}

proof fn lemma_byte_len_grows(s: Seq<char>, i: nat, j: nat)
    requires
        i < j <= s.len(),
    ensures
        byte_len(s.take(i as int)) < byte_len(s.take(j as int)),
    decreases j - i,
{
    assert(s.take(j as int).drop_last() =~= s.take(j - 1));
    if i < j - 1 {
        lemma_byte_len_grows(s, i, (j - 1) as nat);
    }
}

/// The character offset of `s` that lies `b` bytes in, if one does.
pub fn char_offset_of(s: &Vec<char>, b: usize) -> (r: Option<usize>)
    ensures
        r is Some == char_offset(s@, b as nat) is Some,
        r is Some ==> r->0 as nat == char_offset(s@, b as nat)->0,
{
    let mut i: usize = 0;
    let mut bytes: usize = 0;
    while i <= s.len()
        invariant
            i <= s@.len() + 1,
            i <= s@.len() ==> bytes as nat == byte_len(s@.take(i as int)),
            forall|k: nat| k < i && k <= s@.len() ==> byte_len(#[trigger] s@.take(k as int)) < b,
        decreases s@.len() + 1 - i,
    {
        if bytes == b {
            proof {
                assert forall|k: nat| k <= s@.len() && byte_len(s@.take(k as int)) == b as nat implies k == i by {
                    if k < i {
                    } else if k > i {
                        lemma_byte_len_grows(s@, i as nat, k);
                    }
                }
            }
            return Some(i);
        }
        if bytes > b || i == s.len() {
            proof {
                assert forall|k: nat| k <= s@.len() implies byte_len(#[trigger] s@.take(k as int)) != b as nat by {
                    if k > i {
                        lemma_byte_len_grows(s@, i as nat, k);
                    }
                }
            }
            return None;
        }
        let c = s[i];
        let u = c as u32;
        let w: usize = if u < 0x80 { 1 } else if u < 0x800 { 2 } else if u < 0x10000 { 3 } else { 4 };
        proof {
            assert(s@.take(i + 1).drop_last() =~= s@.take(i as int));
            assert(s@.take(i + 1).last() == c);
        }
        if w > b - bytes {
            proof {
                assert(byte_len(s@.take(i + 1)) == bytes + w);
                assert forall|k: nat| k <= s@.len() implies byte_len(#[trigger] s@.take(k as int)) != b as nat by {
                    if k > i + 1 {
                        lemma_byte_len_grows(s@, (i + 1) as nat, k);
                    }
                }
            }
            return None;
        }
        bytes = bytes + w;
        i = i + 1;
    }
    None
}

pub open spec fn is_digit(c: char) -> bool {
    '0' <= c <= '9'
}

/// Where the run of digits that starts at `i` ends.
pub open spec fn digits_end(r: Seq<char>, i: nat) -> nat
    decreases r.len() - i,
{
    if i < r.len() && is_digit(r[i as int]) {
        digits_end(r, i + 1)
    } else {
        i
    }
}

/// The number the digits of `r` from `i` up to `j` spell.
pub open spec fn digits_value(r: Seq<char>, i: nat, j: nat) -> nat
    decreases j - i,
{
    if j <= i {
        0
    } else {
        digits_value(r, i, (j - 1) as nat) * 10 + ((r[j - 1] as u32) - ('0' as u32)) as nat
    }
}

/// The text a group matched; empty where it did not take part.
pub open spec fn group_text(groups: Seq<Option<Seq<char>>>, k: nat) -> Seq<char> {
    if k < groups.len() && groups[k as int] is Some {
        groups[k as int]->0
    } else {
        Seq::empty()
    }
}

/// The replacement text from position `i` on with `$$` read as `$`, `$&`
/// as the whole match and `$N` as group `N` (left as written where there is
/// no such group).
pub open spec fn expand_from(rep: Seq<char>, groups: Seq<Option<Seq<char>>>, i: nat) -> Seq<char>
    decreases rep.len() - i,
{
    if i >= rep.len() {
        Seq::empty()
    } else if rep[i as int] == '$' && i + 1 < rep.len() && rep[i + 1 as int] == '$' {
        seq!['$'] + expand_from(rep, groups, i + 2)
    } else if rep[i as int] == '$' && i + 1 < rep.len() && rep[i + 1 as int] == '&' {
        group_text(groups, 0) + expand_from(rep, groups, i + 2)
    } else if rep[i as int] == '$' && i + 1 < rep.len() && is_digit(rep[i + 1 as int]) {
        let j = digits_end(rep, i + 1);
        let num = digits_value(rep, i + 1, j);
        (if num < groups.len() {
            group_text(groups, num)
        } else {
            rep.subrange(i as int, j as int)
        }) + if j > i && j <= rep.len() {
            expand_from(rep, groups, j)
        } else {
            Seq::empty()
        }
    } else {
        seq![rep[i as int]] + expand_from(rep, groups, i + 1)
    }
}

proof fn lemma_digits_end(r: Seq<char>, i: nat)
    ensures
        i <= digits_end(r, i),
        digits_end(r, i) <= if i <= r.len() { r.len() } else { i },
        forall|k: int| i <= k < digits_end(r, i) ==> is_digit(#[trigger] r[k]),
        digits_end(r, i) < r.len() ==> !is_digit(r[digits_end(r, i) as int]),
    decreases r.len() - i,
{
    if i < r.len() && is_digit(r[i as int]) {
        lemma_digits_end(r, i + 1);
    }
}

proof fn lemma_digits_grow(r: Seq<char>, i: nat, j: nat)
    requires
        i <= j,
        forall|k: int| i <= k < j ==> is_digit(#[trigger] r[k]),
    ensures
        forall|k: nat| i <= k <= j ==> #[trigger] digits_value(r, i, k) <= digits_value(r, i, j),
    decreases j - i,
{
    if j > i {
        lemma_digits_grow(r, i, (j - 1) as nat);
        assert(digits_value(r, i, (j - 1) as nat) <= digits_value(r, i, j)) by (nonlinear_arith)
            requires
                digits_value(r, i, j) == digits_value(r, i, (j - 1) as nat) * 10 + ((r[j - 1] as u32) - ('0' as u32)) as nat,
        ;
    }
}

/// The replacement with its `$` references filled in from `groups`.
pub fn expand_replacement(rep: &Vec<char>, groups: &Vec<Option<Vec<char>>>) -> (r: Vec<char>)
    ensures
        r@ == expand_from(
            rep@,
            groups@.map_values(|g: Option<Vec<char>>| if g is Some { Some(g->0@) } else { None }),
            0,
        ),
{
    let ghost gs = groups@.map_values(|g: Option<Vec<char>>| if g is Some { Some(g->0@) } else { None });
    let mut out: Vec<char> = Vec::new();
    let mut i: usize = 0;
    let n = rep.len();
    while i < n
        invariant
            i <= n,
            n == rep@.len(),
            gs == groups@.map_values(|g: Option<Vec<char>>| if g is Some { Some(g->0@) } else { None }),
            out@ + expand_from(rep@, gs, i as nat) == expand_from(rep@, gs, 0),
        decreases n - i,
    {
        let ghost o0 = out@;
        if rep[i] == '$' && i + 1 < n && rep[i + 1] == '$' {
            out.push('$');
            assert(out@ + expand_from(rep@, gs, (i + 2) as nat) =~= o0 + expand_from(rep@, gs, i as nat));
            i = i + 2;
        } else if rep[i] == '$' && i + 1 < n && rep[i + 1] == '&' {
            if groups.len() > 0 {
                match &groups[0] {
                    Some(g) => {
                        crate::text::push_chars(&mut out, g);
                    },
                    None => {},
                }
            }
            assert(out@ + expand_from(rep@, gs, (i + 2) as nat) =~= o0 + expand_from(rep@, gs, i as nat));
            i = i + 2;
        } else if rep[i] == '$' && i + 1 < n && '0' <= rep[i + 1] && rep[i + 1] <= '9' {
            let mut j: usize = i + 1;
            let mut num: usize = 0;
            let g = groups.len();
            proof {
                lemma_digits_end(rep@, (i + 1) as nat);
            }
            while j < n && '0' <= rep[j] && rep[j] <= '9'
                invariant
                    i + 1 <= j <= n,
                    n == rep@.len(),
                    g == groups@.len(),
                    forall|k: int| i + 1 <= k < j ==> is_digit(#[trigger] rep@[k]),
                    num as nat == if digits_value(rep@, (i + 1) as nat, j as nat) < g {
                        digits_value(rep@, (i + 1) as nat, j as nat)
                    } else {
                        g as nat
                    },
                    digits_end(rep@, (i + 1) as nat) == digits_end(rep@, j as nat),
                decreases n - j,
            {
                let d = ((rep[j] as u32) - ('0' as u32)) as usize;
                proof {
                    lemma_digits_grow(rep@, (i + 1) as nat, (j + 1) as nat);
                }
                if num < g {
                    if d <= g && num <= (g - d) / 10 {
                        num = num * 10 + d;
                        if num > g {
                            num = g;
                        }
                    } else {
                        num = g;
                    }
                }
                proof {
                    let v0 = digits_value(rep@, (i + 1) as nat, j as nat);
                    let v1 = digits_value(rep@, (i + 1) as nat, (j + 1) as nat);
                    assert(v1 == v0 * 10 + d);
                    if v0 < g {
                        if d <= g && (v0 as int) <= ((g - d) as int) / 10 {
                            assert(v0 * 10 + d <= g) by (nonlinear_arith)
                                requires
                                    (v0 as int) <= ((g - d) as int) / 10,
                                    d <= 9,
                                    d <= g,
                            ;
                        } else {
                            assert(v0 * 10 + d >= g) by (nonlinear_arith)
                                requires
                                    d > g || (v0 as int) > ((g - d) as int) / 10,
                                    d <= 9,
                            ;
                        }
                    } else {
                        assert(v1 >= v0) by (nonlinear_arith)
                            requires
                                v1 == v0 * 10 + d,
                        ;
                    }
                }
                j = j + 1;
            }
            let ghost num_v = digits_value(rep@, (i + 1) as nat, j as nat);
            assert(j as nat == digits_end(rep@, (i + 1) as nat));
            if num < g {
                match &groups[num] {
                    Some(t) => {
                        crate::text::push_chars(&mut out, t);
                    },
                    None => {},
                }
            } else {
                let mut k: usize = i;
                while k < j
                    invariant
                        i <= k <= j <= n,
                        n == rep@.len(),
                        out@ == o0 + rep@.subrange(i as int, k as int),
                    decreases j - k,
                {
                    out.push(rep[k]);
                    assert(rep@.subrange(i as int, k + 1) =~= rep@.subrange(i as int, k as int).push(rep@[k as int]));
                    k = k + 1;
                }
            }
            assert(out@ + expand_from(rep@, gs, j as nat) =~= o0 + expand_from(rep@, gs, i as nat));
            i = j;
        } else {
            out.push(rep[i]);
            assert(out@ + expand_from(rep@, gs, (i + 1) as nat) =~= o0 + expand_from(rep@, gs, i as nat));
            i = i + 1;
        }
    }
    assert(out@ =~= out@ + expand_from(rep@, gs, i as nat));
    out
}

/// One match of a pattern in the original text: its character span and the
/// text of each group (`None` where a group did not take part).
pub struct RegexMatch {
    pub start: nat,
    pub end: nat,
    pub groups: Seq<Option<Seq<char>>>,
}

/// A group span of `t` in bytes, as characters, where both ends fall on
/// characters.
pub open spec fn span_ok(t: Seq<char>, g: Option<(nat, nat)>) -> bool {
    match g {
        Some((a, b)) => char_offset(t, a) is Some && char_offset(t, b) is Some && char_offset(t, a)->0 <= char_offset(
            t,
            b,
        )->0,
        None => true,
    }
}

pub open spec fn span_text(t: Seq<char>, g: Option<(nat, nat)>) -> Option<Seq<char>> {
    match g {
        Some((a, b)) => Some(t.subrange(char_offset(t, a)->0 as int, char_offset(t, b)->0 as int)),
        None => None,
    }
}

pub open spec fn span_start(g: Option<(nat, nat)>) -> nat {
    match g {
        Some((a, b)) => a,
        None => 0,
    }
}

pub open spec fn span_end(g: Option<(nat, nat)>) -> nat {
    match g {
        Some((a, b)) => b,
        None => 0,
    }
}

/// The leftmost match of `pat` in the original text from `from` on.
pub open spec fn match_at(pat: Seq<char>, orig: Seq<char>, from: nat) -> Option<RegexMatch> {
    let t = orig.skip(from as int);
    match regex_captures(pat, t) {
        None => None,
        Some(gs) => if gs.len() > 0 && gs[0] is Some && (forall|k: int| 0 <= k < gs.len() ==> span_ok(t, #[trigger] gs[k])) {
            Some(
                RegexMatch {
                    start: from + char_offset(t, span_start(gs[0]))->0,
                    end: from + char_offset(t, span_end(gs[0]))->0,
                    groups: gs.map_values(|g: Option<(nat, nat)>| span_text(t, g)),
                },
            )
        } else {
            None
        },
    }
}

/// The matches of `pat` in the original text from `from` on, each search
/// starting where the previous match ended; only the first unless `global`,
/// and none after an empty match.
pub open spec fn regex_matches(pat: Seq<char>, orig: Seq<char>, from: nat, global: bool) -> Seq<RegexMatch>
    decreases orig.len() + 1 - from,
{
    match match_at(pat, orig, from) {
        None => Seq::empty(),
        Some(m) => if !global || m.end <= from || m.end > orig.len() {
            seq![m]
        } else {
            seq![m] + regex_matches(pat, orig, m.end, global)
        },
    }
}

/// A match found: its character span in the original text and the text of
/// each group.
pub struct FoundMatch {
    pub start: usize,
    pub end: usize,
    pub groups: Vec<Option<Vec<char>>>,
}

pub open spec fn groups_view(groups: Vec<Option<Vec<char>>>) -> Seq<Option<Seq<char>>> {
    groups@.map_values(|g: Option<Vec<char>>| if g is Some { Some(g->0@) } else { None })
}

impl View for FoundMatch {
    type V = RegexMatch;

    open spec fn view(&self) -> RegexMatch {
        RegexMatch { start: self.start as nat, end: self.end as nat, groups: groups_view(self.groups) }
    }
}

proof fn lemma_char_offset_bound(s: Seq<char>, b: nat)
    ensures
        char_offset(s, b) is Some ==> char_offset(s, b)->0 <= s.len(),
{
}

/// The leftmost match of `pattern` in `orig` from `from` on.
fn match_one(re: &CompiledRegex, orig: &Vec<char>, from: usize) -> (r: Option<FoundMatch>)
    requires
        from <= orig@.len(),
    ensures
        match_at(re.pattern(), orig@, from as nat) == if r is Some {
            Some(r->0@)
        } else {
            None
        },
{
    let tail = sub_chars(orig, from, orig.len());
    let ghost t = orig@.skip(from as int);
    assert(tail@ =~= t);
    let text = string_of(copy_chars(&tail));
    let spans = match capture_spans(re, text.as_str()) {
        Some(v) => v,
        None => {
            return None;
        },
    };
    let ghost gs = regex_captures(re.pattern(), t)->0;
    assert(spans@.map_values(|g: Option<(usize, usize)>| span_view(g)) == gs);
    if spans.len() == 0 {
        return None;
    }
    let mut groups: Vec<Option<Vec<char>>> = Vec::new();
    let mut first: (usize, usize) = (0, 0);
    let mut k: usize = 0;
    while k < spans.len()
        invariant
            k <= spans@.len(),
            tail@ == t,
            t == orig@.skip(from as int),
            from <= orig@.len(),
            regex_captures(re.pattern(), t) == Some(gs),
            spans@.len() > 0,
            k > 0 ==> gs[0] is Some,
            spans@.map_values(|g: Option<(usize, usize)>| span_view(g)) == gs,
            forall|q: int| 0 <= q < k ==> span_ok(t, #[trigger] gs[q]),
            groups_view(groups) == gs.take(k as int).map_values(|g: Option<(nat, nat)>| span_text(t, g)),
            k > 0 && gs[0] is Some ==> first.0 as nat == char_offset(t, span_start(gs[0]))->0 && first.1 as nat
                == char_offset(t, span_end(gs[0]))->0,
        decreases spans@.len() - k,
    {
        let ghost g = gs[k as int];
        assert(g == span_view(spans@[k as int]));
        let ghost before = groups_view(groups);
        match spans[k] {
            Some((a, b)) => {
                let ca = match char_offset_of(&tail, a) {
                    Some(x) => x,
                    None => {
                        assert(!span_ok(t, gs[k as int]));
                        return None;
                    },
                };
                let cb = match char_offset_of(&tail, b) {
                    Some(x) => x,
                    None => {
                        assert(!span_ok(t, gs[k as int]));
                        return None;
                    },
                };
                if ca > cb {
                    assert(!span_ok(t, gs[k as int]));
                    return None;
                }
                proof {
                    lemma_char_offset_bound(t, a as nat);
                    lemma_char_offset_bound(t, b as nat);
                }
                if k == 0 {
                    first = (ca, cb);
                }
                groups.push(Some(sub_chars(&tail, ca, cb)));
            },
            None => {
                if k == 0 {
                    return None;
                }
                groups.push(None);
            },
        }
        proof {
            assert(gs.take(k + 1).map_values(|g: Option<(nat, nat)>| span_text(t, g)) =~= gs.take(k as int).map_values(
                |g: Option<(nat, nat)>| span_text(t, g),
            ).push(span_text(t, g)));
            assert(groups_view(groups) =~= before.push(span_text(t, g)));
        }
        k = k + 1;
    }
    assert(gs.take(k as int) =~= gs);
    proof {
        lemma_char_offset_bound(t, span_start(gs[0]));
        lemma_char_offset_bound(t, span_end(gs[0]));
    }
    let m = FoundMatch { start: from + first.0, end: from + first.1, groups };
    assert(m@.groups == gs.map_values(|g: Option<(nat, nat)>| span_text(t, g)));
    Some(m)
}

/// The matches of `pattern` in `text`: only the first unless `global`, each
/// search starting where the previous match ended, none after an empty
/// match; `None` where the pattern does not compile.
pub fn match_all(pattern: &str, text: &Vec<char>, global: bool) -> (r: Option<Vec<FoundMatch>>)
    ensures
        (r is Some) == regex_compiles(pattern@),
        r is Some ==> r->0@.map_values(|m: FoundMatch| m@) == regex_matches(pattern@, text@, 0, global),
{
    let re = match compile_regex(pattern) {
        Some(re) => re,
        None => {
            return None;
        },
    };
    let mut found: Vec<FoundMatch> = Vec::new();
    let mut from: usize = 0;
    loop
        invariant_except_break
            found@.map_values(|m: FoundMatch| m@) + regex_matches(pattern@, text@, from as nat, global)
                == regex_matches(pattern@, text@, 0, global),
        invariant
            from <= text@.len(),
            re.pattern() == pattern@,
        ensures
            found@.map_values(|m: FoundMatch| m@) == regex_matches(pattern@, text@, 0, global),
        decreases text@.len() + 1 - from,
    {
        let ghost f0 = found@.map_values(|m: FoundMatch| m@);
        match match_one(&re, text, from) {
            None => {
                assert(f0 + regex_matches(pattern@, text@, from as nat, global) =~= f0);
                break;
            },
            Some(m) => {
                let end = m.end;
                let ghost mv = m@;
                found.push(m);
                assert(found@.map_values(|x: FoundMatch| x@) =~= f0.push(mv));
                if !global || end <= from || end > text.len() {
                    assert(f0.push(mv) =~= f0 + seq![mv]);
                    break;
                }
                assert(f0 + (seq![mv] + regex_matches(pattern@, text@, end as nat, global)) =~= f0.push(mv) + regex_matches(
                    pattern@,
                    text@,
                    end as nat,
                    global,
                ));
                from = end;
            },
        }
    }
    Some(found)
}

} // verus!
