use vstd::prelude::*;
use vstd::string::StrSliceExecFns;

use crate::error::{Error, FmsErrType};
use crate::text::{chars_of, string_of};

verus! {

/// A negative offset counted from the end of a text of length `n`: `n` is
/// added until the offset is no longer negative.
pub open spec fn from_end(x: int, n: nat) -> int {
    if x >= 0 {
        x
    } else if (-x) % (n as int) == 0 {
        0
    } else {
        n - (-x) % (n as int)
    }
}

/// The range `[start, end)` of a text of length `n` with negative offsets
/// counted from the end; `None` where an offset is out of bounds.
pub open spec fn normalized(n: nat, start: int, end: int) -> Option<(nat, nat)> {
    if n == 0 && (start < 0 || end < 0) {
        None
    } else {
        let s = from_end(start, n);
        let e = from_end(end, n);
        if s > n || e > n {
            None
        } else {
            Some((s as nat, e as nat))
        }
    }
}

fn shift_from_end(x: i32, n: usize) -> (r: usize)
    requires
        0 < n <= i32::MAX,
    ensures
        r == from_end(x as int, n as nat),
{
    if x >= 0 {
        x as usize
    } else {
        let a: usize = (-(x as i64)) as usize;
        let m = a % n;
        if m == 0 {
            0
        } else {
            n - m
        }
    }
}

/// `[start, end)` over a text of `n` characters, negative offsets counted
/// from the end.
pub fn normalize(n: usize, start: i32, end: i32) -> (r: Result<(usize, usize), Error>)
    requires
        n <= i32::MAX,
    ensures
        match normalized(n as nat, start as int, end as int) {
            Some((s, e)) => r is Ok && r->Ok_0 == (s as usize, e as usize),
            None => r is Err && r->Err_0.err_type == FmsErrType::Range,
        },
{
    if n == 0 {
        if start < 0 || end < 0 {
            return Err(Error::from_reason(FmsErrType::Range, "offset is out of bounds"));
        }
        if start > 0 || end > 0 {
            return Err(Error::from_reason(FmsErrType::Range, "end is out of bounds"));
        }
        return Ok((0, 0));
    }
    let s = shift_from_end(start, n);
    let e = shift_from_end(end, n);
    if e > n {
        return Err(Error::from_reason(FmsErrType::Range, "end is out of bounds"));
    }
    if s > n {
        return Err(Error::from_reason(FmsErrType::Range, "start is out of bounds"));
    }
    Ok((s, e))
}

/// `[start, end)` over the characters of `str`, negative offsets counted
/// from the end.
pub fn normalize_range(str: &str, start: i32, end: i32) -> (r: Result<(u32, u32), Error>)
    requires
        str@.len() <= i32::MAX,
    ensures
        match normalized(str@.len(), start as int, end as int) {
            Some((s, e)) => r is Ok && r->Ok_0 == (s as u32, e as u32),
            None => r is Err && r->Err_0.err_type == FmsErrType::Range,
        },
{
    let n = str.unicode_len();
    match normalize(n, start, end) {
        Ok((s, e)) => Ok((s as u32, e as u32)),
        Err(e) => Err(e),
    }
}

/// The characters that Unicode calls white space.
pub open spec fn is_white_space(c: char) -> bool {
    let u = c as u32;
    (0x09 <= u <= 0x0d) || u == 0x20 || u == 0x85 || u == 0xa0 || u == 0x1680 || (0x2000 <= u <= 0x200a) || u
        == 0x2028 || u == 0x2029 || u == 0x202f || u == 0x205f || u == 0x3000
}

pub fn white_space(c: char) -> (r: bool)
    ensures
        r == is_white_space(c),
{
    let u = c as u32;
    (0x09 <= u && u <= 0x0d) || u == 0x20 || u == 0x85 || u == 0xa0 || u == 0x1680 || (0x2000 <= u && u <= 0x200a)
        || u == 0x2028 || u == 0x2029 || u == 0x202f || u == 0x205f || u == 0x3000
}

/// Whether a line of `s` starts at `p`.
pub open spec fn line_start(s: Seq<char>, p: int) -> bool {
    0 <= p < s.len() && (p == 0 || s[p - 1] == '\n')
}

pub open spec fn tab_line(s: Seq<char>, p: int) -> bool {
    line_start(s, p) && s[p] == '\t'
}

pub open spec fn space_line(s: Seq<char>, p: int) -> bool {
    line_start(s, p) && p + 1 < s.len() && s[p] == ' ' && s[p + 1] == ' '
}

/// How many of the lines starting before `k` start with a tab (`tabs`) or
/// with two spaces.
pub open spec fn count_lines(s: Seq<char>, k: nat, tabs: bool) -> nat
    decreases k,
{
    if k == 0 {
        0
    } else {
        count_lines(s, (k - 1) as nat, tabs) + if (if tabs {
            tab_line(s, k - 1)
        } else {
            space_line(s, k - 1)
        }) {
            1nat
        } else {
            0nat
        }
    }
}

/// The number of spaces from `p` on.
pub open spec fn spaces_at(s: Seq<char>, p: nat) -> nat
    decreases s.len() - p,
{
    if p < s.len() && s[p as int] == ' ' {
        1 + spaces_at(s, p + 1)
    } else {
        0
    }
}

/// The fewest leading spaces among the space-indented lines starting before
/// `k` (`usize::MAX` where there is none).
pub open spec fn min_spaces(s: Seq<char>, k: nat) -> nat
    decreases k,
{
    if k == 0 {
        usize::MAX as nat
    } else {
        let m = min_spaces(s, (k - 1) as nat);
        if space_line(s, k - 1) && spaces_at(s, (k - 1) as nat) < m {
            spaces_at(s, (k - 1) as nat)
        } else {
            m
        }
    }
}

/// The indentation `s` seems to use: a tab unless more lines start with two
/// spaces than with a tab, else as many spaces as the least indented of those.
pub open spec fn guessed_indent(s: Seq<char>) -> Seq<char> {
    if count_lines(s, s.len(), true) >= count_lines(s, s.len(), false) {
        seq!['\t']
    } else {
        Seq::new(min_spaces(s, s.len()), |i: int| ' ')
    }
}

proof fn lemma_spaces_bound(s: Seq<char>, p: nat)
    ensures
        spaces_at(s, p) <= if p <= s.len() { s.len() - p } else { 0 },
    decreases s.len() - p,
{
    if p < s.len() && s[p as int] == ' ' {
        lemma_spaces_bound(s, p + 1);
    }
}

proof fn lemma_count_bound(s: Seq<char>, k: nat, tabs: bool)
    ensures
        count_lines(s, k, tabs) <= k,
    decreases k,
{
    if k > 0 {
        lemma_count_bound(s, (k - 1) as nat, tabs);
    }
}

proof fn lemma_min_found(s: Seq<char>, k: nat)
    requires
        k <= s.len(),
        count_lines(s, k, false) > 0,
    ensures
        min_spaces(s, k) <= s.len(),
    decreases k,
{
    if k > 0 {
        lemma_spaces_bound(s, (k - 1) as nat);
        if count_lines(s, (k - 1) as nat, false) > 0 {
            lemma_min_found(s, (k - 1) as nat);
        }
    }
}

fn count_spaces(s: &Vec<char>, p: usize) -> (r: usize)
    requires
        p <= s@.len(),
    ensures
        r == spaces_at(s@, p as nat),
{
    let mut q: usize = p;
    while q < s.len() && s[q] == ' '
        invariant
            p <= q <= s@.len(),
            spaces_at(s@, p as nat) == (q - p) + spaces_at(s@, q as nat),
        decreases s@.len() - q,
    {
        q = q + 1;
    }
    q - p
}

/// A tab unless more lines of `code` start with two spaces than with a tab;
/// else as many spaces as the least indented of those lines.
pub fn guess_indent(code: &str) -> (r: Result<String, Error>)
    ensures
        r is Ok && r->Ok_0@ == guessed_indent(code@),
{
    let s = chars_of(code);
    let mut tabbed: usize = 0;
    let mut spaced: usize = 0;
    let mut min: usize = usize::MAX;
    let mut p: usize = 0;
    while p < s.len()
        invariant
            p <= s@.len(),
            s@ == code@,
            tabbed == count_lines(s@, p as nat, true),
            spaced == count_lines(s@, p as nat, false),
            min == min_spaces(s@, p as nat),
        decreases s@.len() - p,
    {
        proof {
            lemma_count_bound(s@, p as nat, true);
            lemma_count_bound(s@, p as nat, false);
        }
        let at_start = p == 0 || s[p - 1] == '\n';
        if at_start && s[p] == '\t' {
            tabbed = tabbed + 1;
        }
        if at_start && p + 1 < s.len() && s[p] == ' ' && s[p + 1] == ' ' {
            spaced = spaced + 1;
            let n = count_spaces(&s, p);
            if n < min {
                min = n;
            }
        }
        p = p + 1;
    }
    let mut out: Vec<char> = Vec::new();
    if tabbed >= spaced {
        out.push('\t');
        assert(out@ =~= seq!['\t']);
    } else {
        proof {
            lemma_min_found(s@, s@.len());
        }
        let mut i: usize = 0;
        while i < min
            invariant
                i <= min,
                out@ =~= Seq::new(i as nat, |j: int| ' '),
            decreases min - i,
        {
            out.push(' ');
            i = i + 1;
        }
    }
    Ok(string_of(out))
}

} // verus!
