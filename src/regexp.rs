use vstd::prelude::*;

use crate::error::Error;
use crate::text::{chars_of, copy_chars, string_of};

verus! {

/// A regular expression as handed over by a caller: its source and flags.
pub struct FmsRegex {
    pub flags: String,
    pub source: String,
}

fn has_char(s: &String, c: char) -> (r: bool)
    ensures
        r == s@.contains(c),
{
    let v = chars_of(s.as_str());
    let mut i: usize = 0;
    while i < v.len()
        invariant
            i <= v@.len(),
            v@ == s@,
            forall|k: int| 0 <= k < i ==> v@[k] != c,
        decreases v@.len() - i,
    {
        if v[i] == c {
            assert(v@[i as int] == c);
            return true;
        }
        i = i + 1;
    }
    false
}

impl FmsRegex {
    /// The expression `expr` without flags.
    pub fn new(&self, expr: &str) -> (r: Result<FmsRegex, Error>)
        ensures
            r is Ok,
            r->Ok_0.source@ == expr@,
            r->Ok_0.flags@.len() == 0,
    {
        proof {
            reveal_strlit("");
        }
        Self::with_flags(expr, "")
    }

    pub fn with_flags(expr: &str, flags: &str) -> (r: Result<FmsRegex, Error>)
        ensures
            r is Ok,
            r->Ok_0.source@ == expr@,
            r->Ok_0.flags@ == flags@,
    {
        let f = chars_of(flags);
        let s = chars_of(expr);
        Ok(FmsRegex { flags: string_of(copy_chars(&f)), source: string_of(s) })
    }

    /// Whether the `g` flag is set.
    pub fn global(&self) -> (r: bool)
        ensures
            r == self.flags@.contains('g'),
    {
        has_char(&self.flags, 'g')
    }

    /// Whether the `y` flag is set.
    pub fn sticky(&self) -> (r: bool)
        ensures
            r == self.flags@.contains('y'),
    {
        has_char(&self.flags, 'y')
    }
}

} // verus!
