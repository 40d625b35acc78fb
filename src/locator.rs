use vstd::prelude::*;

verus! {

/// The 0-based line and column of offset `k` of `s`.
pub open spec fn location(s: Seq<char>, k: nat) -> (nat, nat)
    decreases k,
{
    if k == 0 || k > s.len() {
        (0, 0)
    } else {
        let (l, c) = location(s, (k - 1) as nat);
        if s[k - 1] == '\n' {
            (l + 1, 0)
        } else {
            (l, c + 1)
        }
    }
}

pub proof fn lemma_location_bound(s: Seq<char>, k: nat)
    requires
        k <= s.len(),
    ensures
        location(s, k).0 + location(s, k).1 <= k,
    decreases k,
{
    if k > 0 {
        lemma_location_bound(s, (k - 1) as nat);
    }
}

/// Converts offsets of one text into lines and columns.
pub struct Locator {
    pub text: Ghost<Seq<char>>,
    pub table: Vec<(usize, usize)>,
}

impl Locator {
    pub open spec fn wf(&self) -> bool {
        &&& self.table@.len() == self.text@.len() + 1
        &&& forall|k: int|
            0 <= k < self.table@.len() ==> (#[trigger] self.table@[k]).0 as nat == location(self.text@, k as nat).0
                && self.table@[k].1 as nat == location(self.text@, k as nat).1
    }

    pub fn new(text: &Vec<char>) -> (r: Locator)
        ensures
            r.wf(),
            r.text@ == text@,
    {
        let mut table: Vec<(usize, usize)> = Vec::new();
        table.push((0, 0));
        let mut line: usize = 0;
        let mut column: usize = 0;
        let mut i: usize = 0;
        while i < text.len()
            invariant
                i <= text@.len(),
                table@.len() == i + 1,
                line as nat == location(text@, i as nat).0,
                column as nat == location(text@, i as nat).1,
                forall|k: int|
                    0 <= k <= i ==> (#[trigger] table@[k]).0 as nat == location(text@, k as nat).0
                        && table@[k].1 as nat == location(text@, k as nat).1,
            decreases text@.len() - i,
        {
            proof {
                lemma_location_bound(text@, i as nat);
            }
            if text[i] == '\n' {
                line = line + 1;
                column = 0;
            } else {
                column = column + 1;
            }
            i = i + 1;
            table.push((line, column));
        }
        Locator { text: Ghost(text@), table }
    }

    /// The line and column of `offset`, where it lies within the text.
    pub fn locate(&self, offset: usize) -> (r: Option<(usize, usize)>)
        requires
            self.wf(),
        ensures
            offset > self.text@.len() ==> r is None,
            offset <= self.text@.len() ==> r == Some(
                (location(self.text@, offset as nat).0 as usize, location(self.text@, offset as nat).1 as usize),
            ),
    {
        if offset < self.table.len() {
            Some(self.table[offset])
        } else {
            None
        }
    }
}

} // verus!
