use vstd::prelude::*;
use vstd::std_specs::iter::IteratorSpec;

verus! {

broadcast use vstd::string::group_string_axioms;

/// The characters of `s`, in order.
pub fn chars_of(s: &str) -> (r: Vec<char>)
    ensures
        r@ == s@,
{
    let mut it = s.chars();
    let mut r: Vec<char> = Vec::new();
    loop
        invariant
            r@ + it.remaining() == s@,
            it.obeys_prophetic_iter_laws(),
            it.decrease() is Some,
        ensures
            r@ == s@,
        decreases it.decrease()->0,
    {
        let ghost before = it.remaining();
        match it.next() {
            Some(c) => {
                r.push(c);
            },
            None => {
                assert(before.len() == 0);
                assert(r@ + before =~= r@);
                break;
            },
        }
    }
    r
}


/// Relies on `String::from_iter` over a `Vec<char>`: the string holds exactly
/// those characters, in order.
#[verifier::external_body]
pub fn string_of(v: Vec<char>) -> (r: String)
    ensures
        r@ == v@,
{
    String::from_iter(v)
}

/// Appends the characters of `src` to `dst`.
pub fn push_chars(dst: &mut Vec<char>, src: &Vec<char>)
    ensures
        final(dst)@ == old(dst)@ + src@,
{
    let ghost d0 = dst@;
    let mut i: usize = 0;
    while i < src.len()
        invariant
            i <= src@.len(),
            dst@ == d0 + src@.subrange(0, i as int),
        decreases src@.len() - i,
    {
        dst.push(src[i]);
        i = i + 1;
        assert(src@.subrange(0, i as int) =~= src@.subrange(0, i - 1).push(src@[i - 1]));
    }
    assert(src@.subrange(0, i as int) =~= src@);
}

/// The characters of `v` from `from` up to (not including) `to`.
pub fn sub_chars(v: &Vec<char>, from: usize, to: usize) -> (r: Vec<char>)
    requires
        from <= to <= v@.len(),
    ensures
        r@ == v@.subrange(from as int, to as int),
{
    let mut r: Vec<char> = Vec::new();
    let mut i: usize = from;
    while i < to
        invariant
            from <= i <= to <= v@.len(),
            r@ == v@.subrange(from as int, i as int),
        decreases to - i,
    {
        r.push(v[i]);
        i = i + 1;
        assert(v@.subrange(from as int, i as int) =~= v@.subrange(from as int, i - 1).push(v@[i - 1]));
    }
    r
}

/// A copy of `v`.
pub fn copy_chars(v: &Vec<char>) -> (r: Vec<char>)
    ensures
        r@ == v@,
{
    let r = sub_chars(v, 0, v.len());
    assert(v@.subrange(0, v@.len() as int) =~= v@);
    r
}

/// A copy of `v`.
pub fn copy_bools(v: &Vec<bool>) -> (r: Vec<bool>)
    ensures
        r@ == v@,
{
    let mut r: Vec<bool> = Vec::new();
    let mut i: usize = 0;
    while i < v.len()
        invariant
            i <= v@.len(),
            r@ == v@.subrange(0, i as int),
        decreases v@.len() - i,
    {
        r.push(v[i]);
        i = i + 1;
        assert(v@.subrange(0, i as int) =~= v@.subrange(0, i - 1).push(v@[i - 1]));
    }
    assert(v@.subrange(0, i as int) =~= v@);
    r
}

/// `a` followed by `b`.
pub fn concat_chars(a: &Vec<char>, b: &Vec<char>) -> (r: Vec<char>)
    ensures
        r@ == a@ + b@,
{
    let mut r = copy_chars(a);
    push_chars(&mut r, b);
    r
}

/// Whether `a` and `b` hold the same characters.
pub fn same_chars(a: &Vec<char>, b: &Vec<char>) -> (r: bool)
    ensures
        r == (a@ == b@),
{
    if a.len() != b.len() {
        return false;
    }
    let mut i: usize = 0;
    while i < a.len()
        invariant
            a@.len() == b@.len(),
            i <= a@.len(),
            forall|j: int| 0 <= j < i ==> a@[j] == b@[j],
        decreases a@.len() - i,
    {
        if a[i] != b[i] {
            return false;
        }
        i = i + 1;
    }
    assert(a@ =~= b@);
    true
}

/// Whether `pat` occurs in `text` at position `i`.
pub open spec fn occurs_at(text: Seq<char>, pat: Seq<char>, i: int) -> bool {
    0 <= i && i + pat.len() <= text.len() && text.subrange(i, i + pat.len()) == pat
}

/// The first position from `from` on where `pat` occurs in `text`.
pub open spec fn find_from(text: Seq<char>, pat: Seq<char>, from: nat) -> Option<nat>
    decreases text.len() + 1 - from,
{
    if from + pat.len() > text.len() {
        None
    } else if occurs_at(text, pat, from as int) {
        Some(from)
    } else {
        find_from(text, pat, from + 1)
    }
}

pub proof fn lemma_find_from_bound(text: Seq<char>, pat: Seq<char>, from: nat)
    ensures
        find_from(text, pat, from) is Some ==> from <= find_from(text, pat, from)->0 && find_from(text, pat, from)->0
            + pat.len() <= text.len(),
    decreases text.len() + 1 - from,
{
    if from + pat.len() <= text.len() && !occurs_at(text, pat, from as int) {
        lemma_find_from_bound(text, pat, from + 1);
    }
}

/// The first position from `from` on where `pat` occurs in `text`.
pub fn find_chars(text: &Vec<char>, pat: &Vec<char>, from: usize) -> (r: Option<usize>)
    ensures
        r is Some == find_from(text@, pat@, from as nat) is Some,
        r is Some ==> r->0 as nat == find_from(text@, pat@, from as nat)->0,
{
    proof {
        lemma_find_from_bound(text@, pat@, from as nat);
    }
    let n = text.len();
    let m = pat.len();
    if m > n {
        return None;
    }
    let mut i: usize = from;
    while i <= n - m
        invariant
            from <= i,
            n == text@.len(),
            m == pat@.len(),
            m <= n,
            find_from(text@, pat@, from as nat) == find_from(text@, pat@, i as nat),
        decreases n + 1 - i,
    {
        let mut k: usize = 0;
        let mut same = true;
        while k < m
            invariant
                k <= m,
                i + m <= n,
                n == text@.len(),
                m == pat@.len(),
                same == forall|q: int| 0 <= q < k ==> text@[i + q] == pat@[q],
            decreases m - k,
        {
            if text[i + k] != pat[k] {
                same = false;
            }
            k = k + 1;
        }
        if same {
            assert(text@.subrange(i as int, i + m) =~= pat@);
            return Some(i);
        }
        assert(!occurs_at(text@, pat@, i as int)) by {
            if occurs_at(text@, pat@, i as int) {
                assert forall|q: int| 0 <= q < m implies text@[i + q] == pat@[q] by {
                    assert(text@.subrange(i as int, i + m)[q] == text@[i + q]);
                }
            }
        }
        i = i + 1;
    }
    None
}

/// The characters of `s` from `start` up to (not including) `end`, counted in characters.
pub fn slice_string(s: String, start: usize, end: usize) -> (r: String)
    requires
        start <= end <= s@.len(),
    ensures
        r@ == s@.subrange(start as int, end as int),
{
    let v = chars_of(s.as_str());
    string_of(sub_chars(&v, start, end))
}

} // verus!
