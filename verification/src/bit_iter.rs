//! # Reading bits off a byte stream
use crate::bits::{bits_of, drop_bits};
use vstd::prelude::*;
use vstd::std_specs::iter::IteratorSpec;

verus! {

/// A bit stream ended before the value that was to be read from it.
#[derive(Clone, Copy, PartialEq, Eq, Structural, Debug)]
pub struct EarlyEndOfStreamError;

/// A cursor over the bits of a byte stream.
pub struct BitIter<I: Iterator<Item = u8>> {
    iter: I,
    /// The byte that was taken from the stream last.
    cached_byte: u8,
    /// How many bits of that byte were read.
    read_bits: usize,
    /// All that was read.
    answers: Ghost<Seq<Option<bool>>>,
}

/// Between two states of a stream, it was asked for `n` bits.
pub open spec fn asked(before: Seq<Option<bool>>, after: Seq<Option<bool>>, n: nat) -> bool {
    before.is_prefix_of(after) && after.len() == before.len() + n
}

impl<I: Iterator<Item = u8>> BitIter<I> {
    /// The stream of further bytes.
    pub closed spec fn source(self) -> I {
        self.iter
    }

    /// The bits of the current byte that are still to be read.
    pub closed spec fn cached(self) -> Seq<bool> {
        drop_bits(bits_of(seq![self.cached_byte]), self.read_bits as nat)
    }

    /// What was answered each time that a bit was asked for: the bit, or nothing where the byte
    /// stream had no further byte.
    pub closed spec fn answers(self) -> Seq<Option<bool>> {
        self.answers@
    }

    /// The byte stream keeps to the laws of iterators that come to an end.
    pub open spec fn lawful(self) -> bool {
        self.source().obeys_prophetic_iter_laws()
    }

    /// The bits that are still to be read if the given bytes follow.
    pub open spec fn ahead(self, bytes: Seq<u8>) -> Seq<bool> {
        self.cached() + bits_of(bytes)
    }

    /// Start at the first bit of the given bytes.
    pub fn new(iter: I) -> (res: Self)
        ensures
            res.source() == iter,
            res.cached() == Seq::<bool>::empty(),
            res.answers() == Seq::<Option<bool>>::empty(),
    {
        BitIter {
            iter,
            cached_byte: 0,
            read_bits: 8,
            answers: Ghost(Seq::empty()),
        }
    }

    /// Read the next bit.
    pub fn next(&mut self) -> (res: Option<bool>)
        ensures
            final(self).answers() == old(self).answers().push(res),
            old(self).cached().len() > 0 ==> {
                &&& res == Some(old(self).cached()[0])
                &&& final(self).cached() == old(self).cached().skip(1)
                &&& final(self).source() == old(self).source()
            },
            old(self).cached().len() == 0 ==> final(self).cached().len() == if res is Some {
                7nat
            } else {
                0
            },
            final(self).lawful() == old(self).lawful(),
            old(self).lawful() ==> {
                let before = old(self).ahead(old(self).source().remaining());
                &&& res == if before.len() == 0 {
                    None
                } else {
                    Some(before[0])
                }
                &&& final(self).ahead(final(self).source().remaining()) == drop_bits(before, 1)
            },
    {
        if self.read_bits >= 8 {
            match self.iter.next() {
                None => {
                    self.answers = Ghost(self.answers@.push(None));
                    proof {
                        if self.lawful() {
                            assert(self.ahead(self.source().remaining()) =~= Seq::empty());
                        }
                    }
                    return None;
                },
                Some(byte) => {
                    self.cached_byte = byte;
                    self.read_bits = 0;
                },
            }
        }
        let res = (self.cached_byte >> (7 - self.read_bits)) & 1 == 1;
        self.read_bits = self.read_bits + 1;
        self.answers = Ghost(self.answers@.push(Some(res)));
        proof {
            assert(bits_of(seq![self.cached_byte])[self.read_bits - 1] == res);
            if old(self).read_bits < 8 {
                assert(self.cached() =~= old(self).cached().skip(1));
            }
            if self.lawful() {
                let before = old(self).ahead(old(self).source().remaining());
                let bytes = old(self).source().remaining();
                if old(self).read_bits >= 8 {
                    assert(bits_of(bytes) =~= bits_of(seq![self.cached_byte]) + bits_of(
                        bytes.drop_first(),
                    ));
                }
                assert(self.ahead(self.source().remaining()) =~= before.skip(1));
            }
        }
        Some(res)
    }

    /// Move past the next `n` bits, or to the end of the stream where there are fewer.
    pub fn skip(&mut self, n: usize)
        ensures
            asked(old(self).answers(), final(self).answers(), n as nat),
            n == 0 ==> *final(self) == *old(self),
            final(self).lawful() == old(self).lawful(),
            old(self).lawful() ==> final(self).ahead(final(self).source().remaining())
                == drop_bits(old(self).ahead(old(self).source().remaining()), n as nat),
    {
        proof {
            let start = self.ahead(self.source().remaining());
            assert(drop_bits(start, 0) =~= start);
        }
        let mut i: usize = 0;
        while i < n
            invariant
                i <= n,
                asked(old(self).answers(), self.answers(), i as nat),
                i == 0 ==> *self == *old(self),
                self.lawful() == old(self).lawful(),
                old(self).lawful() ==> self.ahead(self.source().remaining()) == drop_bits(
                    old(self).ahead(old(self).source().remaining()),
                    i as nat,
                ),
            decreases n - i,
        {
            let ghost before = self.answers();
            let bit = self.next();
            proof {
                assert(old(self).answers().is_prefix_of(self.answers())) by {
                    assert(self.answers().take(before.len() as int) =~= before);
                }
                let start = old(self).ahead(old(self).source().remaining());
                assert(drop_bits(drop_bits(start, i as nat), 1) =~= drop_bits(
                    start,
                    (i + 1) as nat,
                ));
            }
            i = i + 1;
        }
    }
}

} // verus!
