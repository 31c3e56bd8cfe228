//! A whitespace token reader over an in-memory line source.
use crate::text::{char_is_whitespace, is_ws, str_to_chars};
use vstd::prelude::*;

verus! {

/// The number of white-space characters `s` starts with.
pub open spec fn leading_ws(s: Seq<char>) -> int
    decreases s.len(),
{
    if s.len() == 0 {
        0
    } else if is_ws(s[0]) {
        1 + leading_ws(s.skip(1))
    } else {
        0
    }
}

/// The number of non-white-space characters `s` starts with.
pub open spec fn leading_run(s: Seq<char>) -> int
    decreases s.len(),
{
    if s.len() == 0 {
        0
    } else if !is_ws(s[0]) {
        1 + leading_run(s.skip(1))
    } else {
        0
    }
}

/// Splits a fixed input text into white-space-separated tokens, handing
/// them out one at a time.
pub struct Scanner {
    chars: Vec<char>,
    pos: usize,
}

impl Scanner {
    /// What remains to be read.
    pub closed spec fn remaining(&self) -> Seq<char> {
        self.chars@.skip(self.pos as int)
    }

    pub closed spec fn wf(&self) -> bool {
        self.pos <= self.chars@.len()
    }

    pub fn new(input: &str) -> (r: Scanner)
        ensures
            r.wf(),
            r.remaining() == input@,
    {
        let chars = str_to_chars(input);
        let r = Scanner { chars, pos: 0 };
        proof {
            assert(r.remaining() =~= input@);
        }
        r
    }

    /// The next white-space-separated token: the first maximal run of
    /// non-white-space characters of the remaining input, which it
    /// consumes together with the white space before it; `None` exactly
    /// when only white space remains, which is then consumed whole.
    pub fn token(&mut self) -> (r: Option<Vec<char>>)
        requires
            old(self).wf(),
        ensures
            final(self).wf(),
            ({
                let rem = old(self).remaining();
                let w = leading_ws(rem);
                match r {
                    Some(t) => {
                        let k = leading_run(rem.skip(w));
                        &&& w < rem.len()
                        &&& k > 0
                        &&& t@ == rem.skip(w).take(k)
                        &&& final(self).remaining() == rem.skip(w + k)
                    },
                    None => w == rem.len() && final(self).remaining().len() == 0,
                }
            }),
    {
        let n = self.chars.len();
        let ghost rem = self.remaining();
        let ghost p0 = self.pos as int;
        // skip leading white space
        while self.pos < n && char_is_whitespace(self.chars[self.pos as usize])
            invariant
                self.chars@ == old(self).chars@,
                self.chars@.len() == n,
                0 <= p0 <= self.pos as int <= n,
                rem == self.chars@.skip(p0),
                leading_ws(rem) == (self.pos as int - p0) + leading_ws(
                    self.chars@.skip(self.pos as int),
                ),
            decreases n - self.pos,
        {
            proof {
                let cur = self.chars@.skip(self.pos as int);
                assert(cur[0] == self.chars@[self.pos as int]);
                assert(cur.skip(1) =~= self.chars@.skip(self.pos as int + 1));
            }
            self.pos = self.pos + 1;
        }
        let ghost w = leading_ws(rem);
        proof {
            if self.pos as int == n {
                assert(self.chars@.skip(self.pos as int).len() == 0);
                assert(w == rem.len());
            } else {
                let cur = self.chars@.skip(self.pos as int);
                assert(cur[0] == self.chars@[self.pos as int]);
                assert(leading_ws(cur) == 0);
            }
            assert(w == self.pos as int - p0);
            assert(rem.skip(w) =~= self.chars@.skip(self.pos as int));
        }
        if self.pos >= n {
            proof {
                assert(self.remaining().len() == 0);
            }
            return None;
        }
        // collect the maximal non-white-space run
        let ghost p1 = self.pos as int;
        let mut t: Vec<char> = Vec::new();
        while self.pos < n && !char_is_whitespace(self.chars[self.pos as usize])
            invariant
                self.chars@ == old(self).chars@,
                self.chars@.len() == n,
                0 <= p1 <= self.pos as int <= n,
                t@ == self.chars@.subrange(p1, self.pos as int),
                leading_run(self.chars@.skip(p1)) == (self.pos as int - p1) + leading_run(
                    self.chars@.skip(self.pos as int),
                ),
            decreases n - self.pos,
        {
            proof {
                let cur = self.chars@.skip(self.pos as int);
                assert(cur[0] == self.chars@[self.pos as int]);
                assert(cur.skip(1) =~= self.chars@.skip(self.pos as int + 1));
            }
            let ghost oldpos = self.pos as int;
            t.push(self.chars[self.pos as usize]);
            self.pos = self.pos + 1;
            proof {
                assert(self.chars@.subrange(p1, oldpos + 1) =~= self.chars@.subrange(
                    p1,
                    oldpos,
                ).push(self.chars@[oldpos]));
            }
        }
        proof {
            let k = leading_run(rem.skip(w));
            assert(rem.skip(w) =~= self.chars@.skip(p1));
            if self.pos as int == n {
                assert(self.chars@.skip(self.pos as int).len() == 0);
            } else {
                let cur = self.chars@.skip(self.pos as int);
                assert(cur[0] == self.chars@[self.pos as int]);
                assert(leading_run(cur) == 0);
            }
            assert(k == self.pos as int - p1);
            assert(t@ =~= rem.skip(w).take(k));
            assert(self.remaining() =~= rem.skip(w + k));
        }
        Some(t)
    }
}

} // verus!
