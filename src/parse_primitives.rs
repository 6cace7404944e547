//! A cursor over an input buffer, and readers of little-endian integers.
use vstd::prelude::*;

use crate::ast::MojomError;
use crate::encoding::{le_value, lemma_le_value_bound, pow256};

verus! {

/// Input bytes and the number of them consumed so far.
pub struct ParserData<'a> {
    data: &'a [u8],
    pos: usize,
}

impl<'a> ParserData<'a> {
    /// The whole input.
    pub closed spec fn bytes(&self) -> Seq<u8> {
        self.data@
    }

    /// The number of bytes consumed.
    pub closed spec fn pos(&self) -> int {
        self.pos as int
    }

    /// The cursor lies within the input.
    pub open spec fn wf(&self) -> bool {
        0 <= self.pos() <= self.bytes().len()
    }

    /// A cursor at the start of `data`.
    pub fn new(data: &'a [u8]) -> (r: ParserData<'a>)
        ensures
            0 <= r.pos(),
            r.wf(),
            r.bytes() == data@,
            r.pos() == 0,
    {
        ParserData { data, pos: 0 }
    }

    /// The number of bytes consumed so far.
    pub fn bytes_parsed(&self) -> (r: usize)
        ensures
            r == self.pos(),
    {
        self.pos
    }

    /// The total length of the input.
    pub fn len(&self) -> (r: usize)
        ensures
            r == self.bytes().len(),
    {
        self.data.len()
    }

    /// Consumes `n` bytes and returns their little-endian value.
    pub fn parse_uint(&mut self, n: usize) -> (r: Result<u64, MojomError>)
        requires
            old(self).wf(),
            n <= 8,
        ensures
            final(self).wf(),
            final(self).bytes() == old(self).bytes(),
            old(self).pos() + n <= old(self).bytes().len() ==> r == Ok::<u64, MojomError>(
                le_value(old(self).bytes().subrange(old(self).pos(), old(self).pos() + n)) as u64,
            ) && final(self).pos() == old(self).pos() + n,
            old(self).pos() + n > old(self).bytes().len() ==> r == Err::<u64, MojomError>(
                MojomError::UnexpectedEndOfInput,
            ),
    {
        if n > self.data.len() - self.pos {
            return Err(MojomError::UnexpectedEndOfInput);
        }
        let ghost s = self.data@.subrange(self.pos as int, self.pos + n);
        let total = self.data.len();
        let mut value: u64 = 0;
        let mut i: usize = n;
        proof {
            lemma_le_value_bound(s.subrange(n as int, n as int));
        }
        while i > 0
            invariant
                0 <= i <= n,
                n <= 8,
                self.pos + n <= self.data@.len(),
                self.data@.len() == total,
                s == self.data@.subrange(self.pos as int, self.pos + n),
                value as nat == le_value(s.subrange(i as int, n as int)),
            decreases i,
        {
            let ghost rest = s.subrange(i as int, n as int);
            let ghost next = s.subrange(i - 1, n as int);
            proof {
                assert(next.drop_first() =~= rest);
                lemma_le_value_bound(rest);
                lemma_pow256_le8((n - i) as nat);
            }
            value = value * 256 + self.data[self.pos + i - 1] as u64;
            i = i - 1;
        }
        assert(s.subrange(0, n as int) =~= s);
        self.pos = self.pos + n;
        Ok(value)
    }

    /// Skips `n` bytes without reading them.
    pub fn parse_padding(&mut self, n: usize) -> (r: Result<(), MojomError>)
        requires
            old(self).wf(),
        ensures
            final(self).wf(),
            final(self).bytes() == old(self).bytes(),
            old(self).pos() + n <= old(self).bytes().len() ==> r is Ok && final(self).pos() == old(self).pos() + n,
            old(self).pos() + n > old(self).bytes().len() ==> r == Err::<(), MojomError>(
                MojomError::UnexpectedEndOfInput,
            ),
    {
        if n > self.data.len() - self.pos {
            return Err(MojomError::UnexpectedEndOfInput);
        }
        self.pos = self.pos + n;
        Ok(())
    }
}

proof fn lemma_pow256_le8(m: nat)
    requires
        m < 8,
    ensures
        pow256(m) * 256 <= 0x1_0000_0000_0000_0000,
{
    reveal_with_fuel(pow256, 9);
    assert(m == 0 || m == 1 || m == 2 || m == 3 || m == 4 || m == 5 || m == 6 || m == 7);
}

} // verus!
