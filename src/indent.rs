use vstd::prelude::*;

use crate::text::push_chars;

verus! {

/// Whether `t` has a line that starts at `p` with a character other than a
/// line break.
pub open spec fn indentable(t: Seq<char>, p: int) -> bool {
    0 <= p < t.len() && (p == 0 || t[p - 1] == '\n') && t[p] != '\r' && t[p] != '\n'
}

/// `t` with `ind` put in front of each line that starts with a character
/// other than a line break, while the flag is set; a line start met with the
/// flag clear gets nothing and sets it. With the flag at the end.
pub open spec fn indent_text(t: Seq<char>, ind: Seq<char>, f: bool) -> (Seq<char>, bool)
    decreases t.len(),
{
    if t.len() == 0 {
        (Seq::empty(), f)
    } else {
        let (o, g) = indent_text(t.drop_last(), ind, f);
        let p = t.len() - 1;
        if indentable(t, p) {
            if g {
                (o + ind + seq![t[p]], g)
            } else {
                (o.push(t[p]), true)
            }
        } else {
            (o.push(t[p]), g)
        }
    }
}

pub open spec fn excluded(excl: Seq<bool>, p: nat) -> bool {
    p < excl.len() && excl[p as int]
}

/// The offsets among the `cnt` original characters from `start` on that get
/// an indent, with the flag after them: a line break sets the flag, any
/// other character but a carriage return clears it and, where it was set,
/// gets the indent; excluded offsets are passed over.
pub open spec fn indent_marks(orig: Seq<char>, excl: Seq<bool>, start: nat, cnt: nat, f: bool) -> (Seq<nat>, bool)
    decreases cnt,
{
    if cnt == 0 {
        (Seq::empty(), f)
    } else {
        let (ps, g) = indent_marks(orig, excl, start, (cnt - 1) as nat, f);
        let p = (start + cnt - 1) as nat;
        if excluded(excl, p) {
            (ps, g)
        } else if orig[p as int] == '\n' {
            (ps, true)
        } else if orig[p as int] != '\r' && g {
            (ps.push(p), false)
        } else {
            (ps, g)
        }
    }
}

/// The text indented, with the flag after it.
pub fn indent_chars(t: &Vec<char>, ind: &Vec<char>, f: bool) -> (r: (Vec<char>, bool))
    ensures
        (r.0@, r.1) == indent_text(t@, ind@, f),
{
    let mut out: Vec<char> = Vec::new();
    let mut g = f;
    let mut i: usize = 0;
    while i < t.len()
        invariant
            i <= t@.len(),
            (out@, g) == indent_text(t@.take(i as int), ind@, f),
        decreases t@.len() - i,
    {
        let ghost pre = t@.take(i + 1);
        proof {
            assert(pre.drop_last() =~= t@.take(i as int));
            assert(pre[i as int] == t@[i as int]);
            if i > 0 {
                assert(pre[i - 1] == t@[i - 1]);
            }
        }
        let c = t[i];
        let at_line = (i == 0 || t[i - 1] == '\n') && c != '\r' && c != '\n';
        assert(at_line == indentable(pre, i as int));
        if at_line {
            if g {
                push_chars(&mut out, ind);
                out.push(c);
                assert(out@ =~= indent_text(pre.drop_last(), ind@, f).0 + ind@ + seq![c]);
            } else {
                out.push(c);
                g = true;
            }
        } else {
            out.push(c);
        }
        i = i + 1;
    }
    assert(t@.take(i as int) =~= t@);
    (out, g)
}

/// The offsets of `[start, end)` that get an indent, with the flag after.
pub fn mark_indents(orig: &Vec<char>, excl: &Vec<bool>, start: usize, end: usize, f: bool) -> (r: (Vec<usize>, bool))
    requires
        start <= end <= orig@.len(),
    ensures
        (r.0@.map_values(|p: usize| p as nat), r.1) == indent_marks(orig@, excl@, start as nat, (end - start) as nat, f),
{
    let mut ps: Vec<usize> = Vec::new();
    let mut g = f;
    let mut p: usize = start;
    while p < end
        invariant
            start <= p <= end <= orig@.len(),
            (ps@.map_values(|q: usize| q as nat), g) == indent_marks(orig@, excl@, start as nat, (p - start) as nat, f),
        decreases end - p,
    {
        let ghost before = ps@.map_values(|q: usize| q as nat);
        assert((p + 1 - start) as nat - 1 == (p - start) as nat);
        let ex = p < excl.len() && excl[p];
        if ex {
        } else if orig[p] == '\n' {
            g = true;
        } else if orig[p] != '\r' && g {
            ps.push(p);
            g = false;
            assert(ps@.map_values(|q: usize| q as nat) =~= before.push(p as nat));
        }
        p = p + 1;
    }
    (ps, g)
}

/// Which offsets of a text of length `n` lie in one of `ranges`, each given
/// as a start and an end (further entries are ignored, shorter ranges too).
pub open spec fn exclusion_table(ranges: Seq<Seq<u32>>, n: nat) -> Seq<bool> {
    Seq::new(
        n,
        |p: int| exists|r: int| 0 <= r < ranges.len() && ranges[r].len() >= 2 && ranges[r][0] <= p < ranges[r][1],
    )
}

pub fn build_exclusions(ranges: &Vec<Vec<u32>>, n: usize) -> (r: Vec<bool>)
    ensures
        r@ == exclusion_table(ranges@.map_values(|v: Vec<u32>| v@), n as nat),
{
    let ghost rs = ranges@.map_values(|v: Vec<u32>| v@);
    let mut table: Vec<bool> = Vec::new();
    let mut p: usize = 0;
    while p < n
        invariant
            p <= n,
            table@.len() == p,
            forall|q: int| 0 <= q < p ==> !#[trigger] table@[q],
        decreases n - p,
    {
        table.push(false);
        p = p + 1;
    }
    let mut r: usize = 0;
    while r < ranges.len()
        invariant
            r <= ranges@.len(),
            rs == ranges@.map_values(|v: Vec<u32>| v@),
            table@.len() == n,
            forall|q: int|
                0 <= q < n ==> #[trigger] table@[q] == exists|x: int|
                    0 <= x < r && rs[x].len() >= 2 && rs[x][0] <= q < rs[x][1],
        decreases ranges@.len() - r,
    {
        let range = &ranges[r];
        assert(rs[r as int] == range@);
        let ghost t0 = table@;
        if range.len() >= 2 {
            let lo = range[0] as usize;
            let hi = range[1] as usize;
            let mut q: usize = lo;
            while q < hi && q < n
                invariant
                    lo <= q,
                    q == lo || q <= hi,
                    table@.len() == n,
                    t0.len() == n,
                    range@.len() >= 2,
                    lo as int == range@[0] as int,
                    hi as int == range@[1] as int,
                    forall|x: int| 0 <= x < n ==> #[trigger] table@[x] == (t0[x] || (lo <= x < q)),
                decreases n - q,
            {
                table.set(q, true);
                q = q + 1;
            }
            assert forall|x: int| 0 <= x < n implies #[trigger] table@[x] == (t0[x] || (range@[0] <= x < range@[1])) by {}
        }
        proof {
            assert forall|x: int|
                0 <= x < n implies #[trigger] table@[x] == exists|y: int|
                    0 <= y < r + 1 && rs[y].len() >= 2 && rs[y][0] <= x < rs[y][1] by {
                let here = rs[r as int].len() >= 2 && rs[r as int][0] <= x < rs[r as int][1];
                if here {
                    assert(0 <= r < r + 1 && rs[r as int].len() >= 2 && rs[r as int][0] <= x < rs[r as int][1]);
                }
                if exists|y: int| 0 <= y < r + 1 && rs[y].len() >= 2 && rs[y][0] <= x < rs[y][1] {
                    let y = choose|y: int| 0 <= y < r + 1 && rs[y].len() >= 2 && rs[y][0] <= x < rs[y][1];
                    if y < r {
                        assert(t0[x]);
                    }
                }
                if t0[x] {
                    let y = choose|y: int| 0 <= y < r && rs[y].len() >= 2 && rs[y][0] <= x < rs[y][1];
                    assert(0 <= y < r + 1);
                }
            }
        }
        r = r + 1;
    }
    assert(table@ =~= exclusion_table(rs, n as nat));
    table
}

pub proof fn lemma_marks_in_range(orig: Seq<char>, excl: Seq<bool>, start: nat, cnt: nat, f: bool)
    ensures
        forall|i: int|
            0 <= i < indent_marks(orig, excl, start, cnt, f).0.len() ==> start <= #[trigger] indent_marks(
                orig,
                excl,
                start,
                cnt,
                f,
            ).0[i] < start + cnt,
    decreases cnt,
{
    if cnt > 0 {
        lemma_marks_in_range(orig, excl, start, (cnt - 1) as nat, f);
        let prev = indent_marks(orig, excl, start, (cnt - 1) as nat, f);
        let cur = indent_marks(orig, excl, start, cnt, f);
        let p = (start + cnt - 1) as nat;
        assert(cur.0 == prev.0 || cur.0 == prev.0.push(p));
        assert forall|i: int| 0 <= i < cur.0.len() implies start <= #[trigger] cur.0[i] < start + cnt by {
            if i < prev.0.len() {
                assert(cur.0[i] == prev.0[i]);
            }
        }
    }
}

} // verus!
