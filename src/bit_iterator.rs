//! A bit-at-a-time view of a byte sequence.

use vstd::prelude::*;
use vstd::arithmetic::div_mod::lemma_fundamental_div_mod_converse;

verus! {

/// Bit `i` of a byte, counted from the least significant end.
pub open spec fn bit_of(x: u8, i: int) -> bool {
    (x >> (i as u8)) & 1u8 == 1u8
}

/// The bits of `source` when each byte gives its `width` low bits, least
/// significant first, the bytes taken in order.
pub open spec fn bit_stream(source: Seq<u8>, width: nat) -> Seq<bool> {
    Seq::new(source.len() * width, |t: int| bit_of(source[t / width as int], t % width as int))
}

/// Hands out the bits of a byte source one at a time, `bits` low bits of each
/// byte, least significant first. A cycling iterator starts over at the first
/// byte when the source runs out; a plain one then signals the end for good.
pub struct BitIterator {
    pub source: Vec<u8>,
    /// Index of the next byte to pull from `source`.
    pub next_index: usize,
    pub cycle: bool,
    /// Group width: how many low bits of each byte are handed out.
    pub bits: u8,
    pub curr_item: u8,
    /// Offset of the next bit within `curr_item`.
    pub curr_bit: u8,
}

impl BitIterator {
    pub open spec fn wf(&self) -> bool {
        &&& 1 <= self.bits <= 8
        &&& self.curr_bit <= self.bits
        &&& self.next_index <= self.source@.len()
        &&& self.next_index == 0 ==> self.curr_bit == self.bits
        &&& self.next_index > 0 ==> self.curr_item == self.source@[self.next_index - 1]
    }

    /// The bits of one pass over the source.
    pub open spec fn stream(&self) -> Seq<bool> {
        bit_stream(self.source@, self.bits as nat)
    }

    /// How many bits of the current pass have been handed out.
    pub open spec fn consumed(&self) -> int {
        if self.next_index == 0 {
            0
        } else {
            (self.next_index - 1) * self.bits + self.curr_bit
        }
    }

    /// No more than one pass is ever handed out.
    pub proof fn lemma_consumed_bound(&self)
        requires
            self.wf(),
        ensures
            0 <= self.consumed() <= self.stream().len(),
    {
        if self.next_index > 0 {
            assert((self.next_index - 1) * self.bits + self.curr_bit <= self.source@.len()
                * self.bits) by (nonlinear_arith)
                requires
                    self.next_index <= self.source@.len(),
                    self.curr_bit <= self.bits,
                    self.next_index >= 1,
            ;
        }
    }

    /// An iterator over the bits of `source` that ends with the source.
    pub fn new(source: Vec<u8>, bits: u8) -> (r: Self)
        requires
            1 <= bits <= 8,
        ensures
            r.wf(),
            r.source@ == source@,
            r.bits == bits,
            !r.cycle,
            r.consumed() == 0,
    {
        BitIterator { source, next_index: 0, cycle: false, bits, curr_item: 0, curr_bit: bits }
    }

    /// An iterator over the bits of `source` that starts over whenever the
    /// source runs out (and ends at once on an empty source).
    pub fn cycling(source: Vec<u8>, bits: u8) -> (r: Self)
        requires
            1 <= bits <= 8,
        ensures
            r.wf(),
            r.source@ == source@,
            r.bits == bits,
            r.cycle,
            r.consumed() == 0,
    {
        BitIterator { source, next_index: 0, cycle: true, bits, curr_item: 0, curr_bit: bits }
    }

    /// The next bit, or `None` once the stream is exhausted.
    pub fn next(&mut self) -> (r: Option<bool>)
        requires
            old(self).wf(),
        ensures
            final(self).wf(),
            final(self).source@ == old(self).source@,
            final(self).bits == old(self).bits,
            final(self).cycle == old(self).cycle,
            old(self).consumed() < old(self).stream().len() ==> {
                &&& r == Some(old(self).stream()[old(self).consumed()])
                &&& final(self).consumed() == old(self).consumed() + 1
            },
            old(self).consumed() == old(self).stream().len() && old(self).cycle
                && old(self).stream().len() > 0 ==> {
                &&& r == Some(old(self).stream()[0])
                &&& final(self).consumed() == 1
            },
            old(self).consumed() == old(self).stream().len() && !(old(self).cycle
                && old(self).stream().len() > 0) ==> r is None && *final(self) == *old(self),
    {
        proof {
            self.lemma_consumed_bound();
        }
        let ghost b = self.bits as int;
        let ghost n = self.source@.len();
        let ghost t0 = self.consumed();
        assert(self.stream().len() == n * b);
        let ghost ni0 = self.next_index as int;
        assert(ni0 * b == (ni0 - 1) * b + b) by (nonlinear_arith);
        assert(0 * b == 0);
        if self.curr_bit == self.bits {
            if self.next_index < self.source.len() {
                self.curr_item = self.source[self.next_index];
                self.next_index = self.next_index + 1;
            } else if self.cycle && self.source.len() > 0 {
                self.curr_item = self.source[0];
                self.next_index = 1;
            } else {
                proof {
                    assert(ni0 == n);
                    if n > 0 {
                        assert(n * b > 0) by (nonlinear_arith)
                            requires
                                n > 0,
                                b > 0,
                        ;
                    }
                }
                return None;
            }
            self.curr_bit = 0;
        }
        let i = self.curr_bit;
        let r = (self.curr_item >> i) & 1u8 == 1u8;
        self.curr_bit = self.curr_bit + 1;
        proof {
            let t = (self.next_index - 1) * b + i;
            assert(self.next_index - 1 == ni0 ==> t == ni0 * b);
            lemma_fundamental_div_mod_converse(t, b, self.next_index - 1, i as int);
            assert(t < n * b) by (nonlinear_arith)
                requires
                    t == (self.next_index - 1) * b + i,
                    i < b,
                    1 <= self.next_index <= n,
            ;
        }
        Some(r)
    }
}

} // verus!
