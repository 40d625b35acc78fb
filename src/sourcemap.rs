use vstd::prelude::*;

use crate::error::Error;
use crate::mappings::mappings_view;
use crate::path::join;
use crate::text::string_of;

verus! {

/// The source map format version written into every map.
pub const SOURCEMAP_VERSION: u8 = 3;

/// The base64 digit for `d` (below 64).
pub open spec fn base64_digit(d: nat) -> u8 {
    if d < 26 {
        (d + 65) as u8
    } else if d < 52 {
        (d - 26 + 97) as u8
    } else if d < 62 {
        (d - 52 + 48) as u8
    } else if d == 62 {
        43u8
    } else {
        47u8
    }
}

/// The digits of `n`, five bits each, lowest first; all but the last carry
/// the continuation bit.
pub open spec fn vlq_digits(n: nat) -> Seq<u8>
    decreases n,
{
    if n < 32 {
        seq![base64_digit(n)]
    } else {
        seq![base64_digit(n % 32 + 32)] + vlq_digits(n / 32)
    }
}

/// The base64 VLQ encoding of `v`: its magnitude shifted left by one with
/// the sign in the lowest bit.
pub open spec fn vlq_of(v: int) -> Seq<u8> {
    vlq_digits(
        if v < 0 {
            (-2 * v + 1) as nat
        } else {
            (2 * v) as nat
        },
    )
}

/// Relies on `vlq::encode`: it writes the base64 VLQ digits of `value`, and
/// writing into a `Vec` does not fail.
#[verifier::external_body]
fn vlq_encode(value: i64) -> (r: Vec<u8>)
    requires
        value > i64::MIN,
    ensures
        r@ == vlq_of(value as int),
{
    let mut out: Vec<u8> = Vec::new();
    let _ = vlq::encode(value, &mut out);
    out
}

pub open spec fn ascii_chars(b: Seq<u8>) -> Seq<char> {
    b.map_values(|x: u8| x as char)
}

/// The encoded fields of one mapping, one after the other.
pub open spec fn segment_text(seg: Seq<int>) -> Seq<char>
    decreases seg.len(),
{
    if seg.len() == 0 {
        Seq::empty()
    } else {
        segment_text(seg.drop_last()) + ascii_chars(vlq_of(seg.last()))
    }
}

/// The mappings of one line, comma separated.
pub open spec fn line_text(line: Seq<Seq<int>>) -> Seq<char> {
    join(line.map_values(|s: Seq<int>| segment_text(s)), ',')
}

/// The mappings string: lines separated by semicolons.
pub open spec fn mappings_text(m: Seq<Seq<Seq<int>>>) -> Seq<char> {
    join(m.map_values(|l: Seq<Seq<int>>| line_text(l)), ';')
}

pub open spec fn fits_vlq(m: Seq<Seq<Seq<int>>>) -> bool {
    forall|i: int, j: int, k: int|
        0 <= i < m.len() && 0 <= j < m[i].len() && 0 <= k < m[i][j].len() ==> #[trigger] m[i][j][k] > i64::MIN
}

fn segment_chars(seg: &Vec<i64>) -> (r: Vec<char>)
    requires
        forall|k: int| 0 <= k < seg@.len() ==> #[trigger] seg@[k] > i64::MIN,
    ensures
        r@ == segment_text(seg@.map_values(|x: i64| x as int)),
{
    let ghost sv = seg@.map_values(|x: i64| x as int);
    let mut r: Vec<char> = Vec::new();
    let mut i: usize = 0;
    while i < seg.len()
        invariant
            i <= seg@.len(),
            sv == seg@.map_values(|x: i64| x as int),
            forall|k: int| 0 <= k < seg@.len() ==> #[trigger] seg@[k] > i64::MIN,
            r@ == segment_text(sv.take(i as int)),
        decreases seg@.len() - i,
    {
        let digits = vlq_encode(seg[i]);
        let ghost r0 = r@;
        let mut k: usize = 0;
        while k < digits.len()
            invariant
                k <= digits@.len(),
                r@ == r0 + ascii_chars(digits@.take(k as int)),
            decreases digits@.len() - k,
        {
            r.push(digits[k] as char);
            assert(ascii_chars(digits@.take(k + 1)) =~= ascii_chars(digits@.take(k as int)).push(digits@[k as int] as char));
            k = k + 1;
        }
        assert(digits@.take(k as int) =~= digits@);
        assert(sv.take(i + 1).drop_last() =~= sv.take(i as int));
        i = i + 1;
    }
    assert(sv.take(i as int) =~= sv);
    r
}

/// The mappings string of `raw_mappings`: each value base64 VLQ encoded,
/// mappings joined by `,` and lines by `;`.
pub fn encode_mappings(raw_mappings: &Vec<Vec<Vec<i64>>>) -> (r: Result<String, Error>)
    requires
        fits_vlq(mappings_view(*raw_mappings)),
    ensures
        r is Ok && r->Ok_0@ == mappings_text(mappings_view(*raw_mappings)),
{
    let ghost m = mappings_view(*raw_mappings);
    let mut s: Vec<char> = Vec::new();
    let mut i: usize = 0;
    while i < raw_mappings.len()
        invariant
            i <= raw_mappings@.len(),
            m == mappings_view(*raw_mappings),
            fits_vlq(m),
            s@ == join(m.take(i as int).map_values(|l: Seq<Seq<int>>| line_text(l)), ';'),
        decreases raw_mappings@.len() - i,
    {
        let line = &raw_mappings[i];
        let ghost lv = m[i as int];
        let mut ls: Vec<char> = Vec::new();
        let mut j: usize = 0;
        while j < line.len()
            invariant
                j <= line@.len(),
                lv == line@.map_values(|v: Vec<i64>| v@.map_values(|x: i64| x as int)),
                forall|a: int, b: int| 0 <= a < lv.len() && 0 <= b < lv[a].len() ==> #[trigger] lv[a][b] > i64::MIN,
                ls@ == join(lv.take(j as int).map_values(|t: Seq<int>| segment_text(t)), ','),
            decreases line@.len() - j,
        {
            assert(forall|k: int| 0 <= k < line@[j as int]@.len() ==> #[trigger] line@[j as int]@[k] as int == lv[j as int][k]);
            let seg_s = segment_chars(&line[j]);
            proof {
                let parts = lv.take(j + 1).map_values(|t: Seq<int>| segment_text(t));
                assert(parts.drop_last() =~= lv.take(j as int).map_values(|t: Seq<int>| segment_text(t)));
                if j == 0 {
                    assert(parts =~= seq![parts[0]]);
                }
            }
            if j > 0 {
                ls.push(',');
            }
            crate::text::push_chars(&mut ls, &seg_s);
            j = j + 1;
        }
        assert(lv.take(j as int) =~= lv);
        proof {
            let parts = m.take(i + 1).map_values(|l: Seq<Seq<int>>| line_text(l));
            assert(parts.drop_last() =~= m.take(i as int).map_values(|l: Seq<Seq<int>>| line_text(l)));
            if i == 0 {
                assert(parts =~= seq![parts[0]]);
            }
        }
        if i > 0 {
            s.push(';');
        }
        crate::text::push_chars(&mut s, &ls);
        i = i + 1;
    }
    assert(m.take(i as int) =~= m);
    Ok(string_of(s))
}

/// A source map with its mappings still as lists of integers.
pub struct DecodedMap {
    pub version: u8,
    pub file: Option<String>,
    pub source_root: Option<String>,
    pub sources: Vec<String>,
    pub sources_content: Option<Vec<String>>,
    pub names: Vec<String>,
    pub mappings: Vec<Vec<Vec<i64>>>,
    pub x_google_ignore_list: Option<Vec<u8>>,
}

/// A source map with its mappings encoded as text.
pub struct SourceMap {
    pub version: u8,
    pub file: Option<String>,
    pub source_root: Option<String>,
    pub sources: Vec<String>,
    pub sources_content: Option<Vec<String>>,
    pub names: Vec<String>,
    pub mappings: String,
    pub x_google_ignore_list: Option<Vec<u8>>,
}

impl SourceMap {
    /// The map with its mappings encoded; every other field is kept.
    pub fn from_decoded_map(map: DecodedMap) -> (r: Result<SourceMap, Error>)
        requires
            fits_vlq(mappings_view(map.mappings)),
        ensures
            r is Ok,
            r->Ok_0.mappings@ == mappings_text(mappings_view(map.mappings)),
            r->Ok_0.version == map.version,
            r->Ok_0.file == map.file,
            r->Ok_0.source_root == map.source_root,
            r->Ok_0.sources == map.sources,
            r->Ok_0.sources_content == map.sources_content,
            r->Ok_0.names == map.names,
            r->Ok_0.x_google_ignore_list == map.x_google_ignore_list,
    {
        let mappings = match encode_mappings(&map.mappings) {
            Ok(m) => m,
            Err(e) => {
                return Err(e);
            },
        };
        Ok(SourceMap {
            version: map.version,
            file: map.file,
            source_root: map.source_root,
            sources: map.sources,
            sources_content: map.sources_content,
            names: map.names,
            mappings,
            x_google_ignore_list: map.x_google_ignore_list,
        })
    }
}

} // verus!
