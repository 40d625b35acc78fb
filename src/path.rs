use vstd::prelude::*;

use crate::text::{chars_of, push_chars, string_of};

verus! {

pub open spec fn is_sep(c: char) -> bool {
    c == '/' || c == '\\'
}

/// The parts of `s` between separators (`/` or `\`); always at least one.
pub open spec fn split_parts(s: Seq<char>) -> Seq<Seq<char>>
    decreases s.len(),
{
    if s.len() == 0 {
        seq![Seq::empty()]
    } else {
        let p = split_parts(s.drop_last());
        if is_sep(s.last()) {
            p.push(Seq::empty())
        } else {
            p.update(p.len() - 1, p.last().push(s.last()))
        }
    }
}

/// The text after the last separator of `s`.
pub open spec fn last_part(s: Seq<char>) -> Seq<char> {
    split_parts(s).last()
}

/// `parts` joined with `sep` between each two.
pub open spec fn join(parts: Seq<Seq<char>>, sep: char) -> Seq<char>
    decreases parts.len(),
{
    if parts.len() == 0 {
        Seq::empty()
    } else if parts.len() == 1 {
        parts[0]
    } else {
        join(parts.drop_last(), sep).push(sep) + parts.last()
    }
}

/// How many leading parts `a` and `b` share, counting from `i`.
pub open spec fn common_from(a: Seq<Seq<char>>, b: Seq<Seq<char>>, i: nat) -> nat
    decreases a.len() - i,
{
    if i < a.len() && i < b.len() && a[i as int] == b[i as int] {
        common_from(a, b, i + 1)
    } else {
        i
    }
}

/// The path of `to` relative to the directory of `from`: a `..` for each
/// directory of `from` past the shared leading parts, then the rest of `to`.
pub open spec fn relative_path(from: Seq<char>, to: Seq<char>) -> Seq<char> {
    let dir = split_parts(from).drop_last();
    let parts = split_parts(to);
    let c = common_from(dir, parts, 0);
    join(Seq::new((dir.len() - c) as nat, |i: int| seq!['.', '.']) + parts.skip(c as int), '/')
}

proof fn lemma_split_parts_nonempty(s: Seq<char>)
    ensures
        split_parts(s).len() >= 1,
    decreases s.len(),
{
    if s.len() > 0 {
        lemma_split_parts_nonempty(s.drop_last());
    }
}

/// The parts of `s` between separators.
pub fn split_path(s: &Vec<char>) -> (r: Vec<Vec<char>>)
    ensures
        r@.map_values(|p: Vec<char>| p@) == split_parts(s@),
        r@.len() >= 1,
{
    let mut r: Vec<Vec<char>> = Vec::new();
    let mut cur: Vec<char> = Vec::new();
    let mut i: usize = 0;
    proof {
        assert(s@.take(0) =~= Seq::<char>::empty());
    }
    while i < s.len()
        invariant
            i <= s@.len(),
            r@.map_values(|p: Vec<char>| p@).push(cur@) == split_parts(s@.take(i as int)),
        decreases s@.len() - i,
    {
        let ghost prev = r@.map_values(|p: Vec<char>| p@).push(cur@);
        proof {
            assert(s@.take(i + 1).drop_last() =~= s@.take(i as int));
        }
        if s[i] == '/' || s[i] == '\\' {
            let mut done: Vec<char> = Vec::new();
            std::mem::swap(&mut done, &mut cur);
            r.push(done);
            assert(r@.map_values(|p: Vec<char>| p@).push(cur@) =~= prev.push(Seq::empty()));
        } else {
            cur.push(s[i]);
            assert(r@.map_values(|p: Vec<char>| p@).push(cur@) =~= prev.update(prev.len() - 1, prev.last().push(s@[i as int])));
        }
        i = i + 1;
    }
    assert(s@.take(i as int) =~= s@);
    let ghost before = r@.map_values(|p: Vec<char>| p@);
    r.push(cur);
    assert(r@.map_values(|p: Vec<char>| p@) =~= before.push(cur@));
    r
}

/// `parts` joined with `sep`.
pub fn join_parts(parts: &Vec<Vec<char>>, sep: char) -> (r: Vec<char>)
    ensures
        r@ == join(parts@.map_values(|p: Vec<char>| p@), sep),
{
    let ghost ps = parts@.map_values(|p: Vec<char>| p@);
    let mut r: Vec<char> = Vec::new();
    let mut i: usize = 0;
    while i < parts.len()
        invariant
            i <= parts@.len(),
            ps == parts@.map_values(|p: Vec<char>| p@),
            r@ == join(ps.take(i as int), sep),
        decreases parts@.len() - i,
    {
        proof {
            assert(ps.take(i + 1).drop_last() =~= ps.take(i as int));
            assert(ps.take(i + 1).last() == parts@[i as int]@);
            if i == 0 {
                assert(ps.take(1) =~= seq![ps[0]]);
            }
        }
        if i > 0 {
            r.push(sep);
        }
        push_chars(&mut r, &parts[i]);
        i = i + 1;
    }
    assert(ps.take(i as int) =~= ps);
    r
}

fn same_part(a: &Vec<char>, b: &Vec<char>) -> (r: bool)
    ensures
        r == (a@ == b@),
{
    crate::text::same_chars(a, b)
}

/// The path of `to` relative to the directory of `from`; both split at `/`
/// and `\`, the result joined with `/`.
pub fn get_relative_path(from: &str, to: &str) -> (r: String)
    ensures
        r@ == relative_path(from@, to@),
{
    let from_chars = chars_of(from);
    let to_chars = chars_of(to);
    let mut dir = split_path(&from_chars);
    let to_parts = split_path(&to_chars);
    let ghost whole = dir@;
    dir.pop();
    let ghost dv = dir@.map_values(|p: Vec<char>| p@);
    let ghost tv = to_parts@.map_values(|p: Vec<char>| p@);
    assert(dv =~= split_parts(from@).drop_last());
    let mut common: usize = 0;
    while common < dir.len() && common < to_parts.len()
        invariant
            common <= dir@.len(),
            common <= to_parts@.len(),
            dv == dir@.map_values(|p: Vec<char>| p@),
            tv == to_parts@.map_values(|p: Vec<char>| p@),
            common_from(dv, tv, 0) == common_from(dv, tv, common as nat),
        ensures
            common <= dir@.len(),
            common <= to_parts@.len(),
            common_from(dv, tv, 0) == common as nat,
        decreases dir@.len() - common,
    {
        assert(dv[common as int] == dir@[common as int]@);
        assert(tv[common as int] == to_parts@[common as int]@);
        if !same_part(&dir[common], &to_parts[common]) {
            break;
        }
        common = common + 1;
    }
    let mut out: Vec<Vec<char>> = Vec::new();
    let mut k: usize = common;
    while k < dir.len()
        invariant
            common <= k <= dir@.len(),
            out@.len() == k - common,
            forall|m: int| 0 <= m < out@.len() ==> (#[trigger] out@[m])@ == seq!['.', '.'],
        decreases dir@.len() - k,
    {
        let mut dots: Vec<char> = Vec::new();
        dots.push('.');
        dots.push('.');
        assert(dots@ =~= seq!['.', '.']);
        out.push(dots);
        k = k + 1;
    }
    let ghost ups = out@.map_values(|p: Vec<char>| p@);
    let mut m: usize = common;
    while m < to_parts.len()
        invariant
            common <= m <= to_parts@.len(),
            tv == to_parts@.map_values(|p: Vec<char>| p@),
            out@.map_values(|p: Vec<char>| p@) == ups + tv.subrange(common as int, m as int),
        decreases to_parts@.len() - m,
    {
        let ghost before = out@.map_values(|p: Vec<char>| p@);
        out.push(crate::text::copy_chars(&to_parts[m]));
        assert(out@.map_values(|p: Vec<char>| p@) =~= before.push(tv[m as int]));
        assert(tv.subrange(common as int, m + 1) =~= tv.subrange(common as int, m as int).push(tv[m as int]));
        m = m + 1;
    }
    assert(ups =~= Seq::new((dv.len() - common) as nat, |i: int| seq!['.', '.']));
    assert(tv.subrange(common as int, m as int) =~= tv.skip(common as int));
    string_of(join_parts(&out, '/'))
}

/// The file name in `path`: the text after its last separator.
pub fn file_name(path: &str) -> (r: String)
    ensures
        r@ == last_part(path@),
{
    let v = chars_of(path);
    let parts = split_path(&v);
    let last = parts.len() - 1;
    let r = crate::text::copy_chars(&parts[last]);
    string_of(r)
}

} // verus!
