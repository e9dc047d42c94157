//! Where the characters come from.

use vstd::prelude::*;
use crate::text::{append_range, chars_of};

verus! {

/// A sequential source of characters that is read in chunks and never rewound.
///
/// A reader is proved against this contract. It holds of [`StrReader`]; for a
/// source written elsewhere it is a demand on whoever writes it.
pub trait CharSource {
    /// What the source's own operations keep up.
    spec fn wf(&self) -> bool;

    /// The characters that the source has yet to deliver.
    spec fn pending(&self) -> Seq<char>;

    /// Delivers the next `n` characters, or all that are left where fewer are.
    fn read_chars(&mut self, n: usize) -> (chunk: Vec<char>)
        requires
            old(self).wf(),
        ensures
            final(self).wf(),
            chunk@.len() == if n <= old(self).pending().len() {
                n as nat
            } else {
                old(self).pending().len()
            },
            chunk@ == old(self).pending().take(chunk@.len() as int),
            final(self).pending() == old(self).pending().skip(chunk@.len() as int),
    ;
}

/// A source over text held in memory.
pub struct StrReader {
    chars: Vec<char>,
    pos: usize,
}

impl CharSource for StrReader {
    closed spec fn wf(&self) -> bool {
        self.pos <= self.chars.len()
    }

    closed spec fn pending(&self) -> Seq<char> {
        self.chars@.skip(self.pos as int)
    }

    fn read_chars(&mut self, n: usize) -> (chunk: Vec<char>) {
        let left = self.chars.len() - self.pos;
        let end = if n <= left {
            self.pos + n
        } else {
            self.chars.len()
        };
        let mut chunk: Vec<char> = Vec::new();
        append_range(&mut chunk, &self.chars, self.pos, end);
        assert(chunk@ =~= self.pending().take(end - self.pos));
        assert(self.chars@.skip(end as int) =~= self.pending().skip(end - self.pos));
        self.pos = end;
        chunk
    }
}

/// A source that delivers the characters of `s`.
pub fn str_reader(s: &str) -> (r: StrReader)
    ensures
        r.wf(),
        r.pending() == s@,
{
    let chars = chars_of(s);
    assert(chars@.skip(0) =~= chars@);
    StrReader { chars, pos: 0 }
}

} // verus!
