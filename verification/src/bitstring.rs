//! A growable sequence of bits, packed most-significant bit first into bytes.

use vstd::prelude::*;

verus! {

/// The largest number of bits a [`BitString`] holds.
pub const MAX_BITS: usize = usize::MAX - 8;

/// The mask of bit position `k` of a byte; position 0 is the most significant bit.
pub open spec fn mask_of(k: int) -> u8 {
    if k == 0 {
        0x80
    } else if k == 1 {
        0x40
    } else if k == 2 {
        0x20
    } else if k == 3 {
        0x10
    } else if k == 4 {
        0x08
    } else if k == 5 {
        0x04
    } else if k == 6 {
        0x02
    } else {
        0x01
    }
}

/// Whether `m` is the mask of one of the eight bit positions.
pub open spec fn is_mask(m: u8) -> bool {
    m == 0x80 || m == 0x40 || m == 0x20 || m == 0x10 || m == 0x08 || m == 0x04 || m == 0x02 || m
        == 0x01
}

/// The bit position that the mask `m` selects.
pub open spec fn cursor_of(m: u8) -> int {
    if m == 0x80 {
        0
    } else if m == 0x40 {
        1
    } else if m == 0x20 {
        2
    } else if m == 0x10 {
        3
    } else if m == 0x08 {
        4
    } else if m == 0x04 {
        5
    } else if m == 0x02 {
        6
    } else {
        7
    }
}

/// Whether bit `k` of `byte` is set, counting from the most significant bit.
pub open spec fn bit_of(byte: u8, k: int) -> bool {
    byte & mask_of(k) != 0
}

/// Bit `i` of `bits` as the value it adds to a byte at position `k`; a bit
/// past the end of `bits` counts as zero.
pub open spec fn bit_value(bits: Seq<bool>, i: int, k: int) -> u8 {
    if 0 <= i < bits.len() && bits[i] {
        mask_of(k)
    } else {
        0
    }
}

/// The byte that holds the bits `start .. start + 8` of `bits`.
pub open spec fn pack_byte(bits: Seq<bool>, start: int) -> u8 {
    bit_value(bits, start, 0) | bit_value(bits, start + 1, 1) | bit_value(bits, start + 2, 2)
        | bit_value(bits, start + 3, 3) | bit_value(bits, start + 4, 4) | bit_value(
        bits,
        start + 5,
        5,
    ) | bit_value(bits, start + 6, 6) | bit_value(bits, start + 7, 7)
}

/// The bytes that hold `bits`, eight to a byte, most significant bit first.
/// There is always a last byte that is not yet full: when the number of bits
/// is a multiple of eight, that byte is zero.
pub open spec fn packed(bits: Seq<bool>) -> Seq<u8> {
    Seq::new(bits.len() / 8 + 1, |j: int| pack_byte(bits, 8 * j))
}

/// The mask of every position from that of `m` to the least significant bit.
spec fn tail_of(m: u8) -> u8 {
    m | ((m - 1) as u8)
}

/// What shifting a mask to the right gives.
proof fn lemma_shift_table()
    by (bit_vector)
    ensures
        0x80u8 >> 0u8 == 0x80u8,
        0x80u8 >> 1u8 == 0x40u8,
        0x80u8 >> 2u8 == 0x20u8,
        0x80u8 >> 3u8 == 0x10u8,
        0x80u8 >> 4u8 == 0x08u8,
        0x80u8 >> 5u8 == 0x04u8,
        0x80u8 >> 6u8 == 0x02u8,
        0x80u8 >> 7u8 == 0x01u8,
        0x80u8 >> 1u8 == 0x40u8,
        0x40u8 >> 1u8 == 0x20u8,
        0x20u8 >> 1u8 == 0x10u8,
        0x10u8 >> 1u8 == 0x08u8,
        0x08u8 >> 1u8 == 0x04u8,
        0x04u8 >> 1u8 == 0x02u8,
        0x02u8 >> 1u8 == 0x01u8,
{
}

/// A mask has one bit set.
proof fn lemma_one_hot(m: u8)
    requires
        is_mask(m),
    ensures
        m != 0,
        m & ((m - 1) as u8) == 0,
{
    assert(0x80u8 & 0x7fu8 == 0 && 0x40u8 & 0x3fu8 == 0 && 0x20u8 & 0x1fu8 == 0 && 0x10u8 & 0x0fu8
        == 0 && 0x08u8 & 0x07u8 == 0 && 0x04u8 & 0x03u8 == 0 && 0x02u8 & 0x01u8 == 0 && 0x01u8
        & 0x00u8 == 0) by (bit_vector);
}

/// Setting one bit leaves every other bit as it was.
proof fn lemma_or_keeps_others(x: u8, m: u8, m2: u8)
    by (bit_vector)
    requires
        m != 0,
        m & ((m - 1) as u8) == 0,
        m2 != 0,
        m2 & ((m2 - 1) as u8) == 0,
        m != m2,
    ensures
        (x | m) & m2 == x & m2,
{
}

/// A bit that was set is set, a tail that was cleared is clear, and zero has
/// no bit set.
proof fn lemma_mask_ops(x: u8, m: u8)
    by (bit_vector)
    ensures
        m != 0 ==> (x | m) & m != 0,
        (x & !(m | ((m - 1) as u8))) & (m | ((m - 1) as u8)) == 0,
        0u8 & m == 0,
{
}

/// With nothing written at or after position `m`, the byte stays clean past
/// the next position whether or not the bit at `m` is set.
proof fn lemma_tail_after_write(x: u8, m: u8)
    by (bit_vector)
    requires
        m != 0,
        m != 1,
        m & ((m - 1) as u8) == 0,
        x & (m | ((m - 1) as u8)) == 0,
    ensures
        x & m == 0,
        x & ((m >> 1u8) | (((m >> 1u8) - 1) as u8)) == 0,
        (x | m) & ((m >> 1u8) | (((m >> 1u8) - 1) as u8)) == 0,
{
}

/// With nothing written at or after position `m`, no bit at or after it is set.
proof fn lemma_tail_is_clear(x: u8, m: u8, m2: u8)
    by (bit_vector)
    requires
        m != 0,
        m & ((m - 1) as u8) == 0,
        m2 != 0,
        m2 & ((m2 - 1) as u8) == 0,
        m2 <= m,
        x & (m | ((m - 1) as u8)) == 0,
    ensures
        x & m2 == 0,
{
}

/// Clearing the tail from position `m` on keeps every bit before it.
proof fn lemma_clear_tail(x: u8, m: u8, m2: u8)
    by (bit_vector)
    requires
        m != 0,
        m & ((m - 1) as u8) == 0,
        m2 != 0,
        m2 & ((m2 - 1) as u8) == 0,
        m2 > m,
    ensures
        (x & !(m | ((m - 1) as u8))) & m2 == x & m2,
{
}

/// A byte is the sum of its eight bits.
proof fn lemma_byte_of_bits(x: u8)
    by (bit_vector)
    ensures
        x == (if x & 0x80u8 != 0 {
            0x80u8
        } else {
            0u8
        }) | (if x & 0x40u8 != 0 {
            0x40u8
        } else {
            0u8
        }) | (if x & 0x20u8 != 0 {
            0x20u8
        } else {
            0u8
        }) | (if x & 0x10u8 != 0 {
            0x10u8
        } else {
            0u8
        }) | (if x & 0x08u8 != 0 {
            0x08u8
        } else {
            0u8
        }) | (if x & 0x04u8 != 0 {
            0x04u8
        } else {
            0u8
        }) | (if x & 0x02u8 != 0 {
            0x02u8
        } else {
            0u8
        }) | (if x & 0x01u8 != 0 {
            0x01u8
        } else {
            0u8
        }),
{
}

/// An append-only, retractable sequence of bits.
///
/// The bits are stored eight to a byte, most significant bit first. Storage
/// always ends in a byte that is not yet full, and the positions of that byte
/// that have not been written are zero.
#[derive(Debug)]
pub struct BitString {
    data: Vec<u8>,
    bit_pointer: u8,
}

impl View for BitString {
    type V = Seq<bool>;

    /// The bits, in the order in which they were appended.
    closed spec fn view(&self) -> Seq<bool> {
        Seq::new(
            (8 * (self.data.len() - 1) + cursor_of(self.bit_pointer)) as nat,
            |i: int| bit_of(self.data@[i / 8], i % 8),
        )
    }
}

impl BitString {
    /// The invariant of the representation.
    pub closed spec fn wf(&self) -> bool {
        &&& self.data.len() >= 1
        &&& 8 * self.data.len() <= MAX_BITS + 8
        &&& is_mask(self.bit_pointer)
        &&& self.data@[self.data.len() - 1] & tail_of(self.bit_pointer) == 0
    }

    /// A well-formed buffer holds no more than [`MAX_BITS`] bits.
    pub proof fn lemma_bounded(&self)
        requires
            self.wf(),
        ensures
            self@.len() <= MAX_BITS,
    {
    }

    /// The storage of a well-formed buffer is its bits, packed.
    proof fn lemma_storage(&self)
        requires
            self.wf(),
        ensures
            self.data@ == packed(self@),
    {
        let bits = self@;
        let n = bits.len() as int;
        let last = self.data.len() - 1;
        let m = self.bit_pointer;
        lemma_one_hot(m);
        assert(self.data@.len() == n / 8 + 1);
        assert forall|j: int| 0 <= j < self.data@.len() implies self.data@[j] == pack_byte(
            bits,
            8 * j,
        ) by {
            let x = self.data@[j];
            assert forall|k: int| 0 <= k < 8 implies #[trigger] bit_value(bits, 8 * j + k, k) == (
            if x & mask_of(k) != 0 {
                mask_of(k)
            } else {
                0u8
            }) by {
                let i = 8 * j + k;
                assert(i / 8 == j && i % 8 == k);
                if i < n {
                    assert(bits[i] == bit_of(x, k));
                } else {
                    assert(j == last);
                    lemma_one_hot(mask_of(k));
                    lemma_tail_is_clear(x, m, mask_of(k));
                }
            }
            assert(bit_value(bits, 8 * j + 0, 0) == (if x & 0x80u8 != 0 {
                0x80u8
            } else {
                0u8
            }));
            assert(bit_value(bits, 8 * j + 1, 1) == (if x & 0x40u8 != 0 {
                0x40u8
            } else {
                0u8
            }));
            assert(bit_value(bits, 8 * j + 2, 2) == (if x & 0x20u8 != 0 {
                0x20u8
            } else {
                0u8
            }));
            assert(bit_value(bits, 8 * j + 3, 3) == (if x & 0x10u8 != 0 {
                0x10u8
            } else {
                0u8
            }));
            assert(bit_value(bits, 8 * j + 4, 4) == (if x & 0x08u8 != 0 {
                0x08u8
            } else {
                0u8
            }));
            assert(bit_value(bits, 8 * j + 5, 5) == (if x & 0x04u8 != 0 {
                0x04u8
            } else {
                0u8
            }));
            assert(bit_value(bits, 8 * j + 6, 6) == (if x & 0x02u8 != 0 {
                0x02u8
            } else {
                0u8
            }));
            assert(bit_value(bits, 8 * j + 7, 7) == (if x & 0x01u8 != 0 {
                0x01u8
            } else {
                0u8
            }));
            lemma_byte_of_bits(x);
        }
        assert(self.data@ =~= packed(bits));
    }

    /// An empty buffer: no bits, and one zero byte of storage.
    pub fn new() -> (s: Self)
        ensures
            s.wf(),
            s@ == Seq::<bool>::empty(),
    {
        let mut data: Vec<u8> = Vec::new();
        data.push(0);
        let s = BitString { data, bit_pointer: 0x80 };
        proof {
            lemma_mask_ops(0, tail_of(0x80));
            assert(s@ =~= Seq::<bool>::empty());
        }
        s
    }

    /// The number of bytes of storage: one more than the number of full bytes.
    pub fn len(&self) -> (n: usize)
        requires
            self.wf(),
        ensures
            n == self@.len() / 8 + 1,
    {
        self.data.len()
    }

    /// The position in the last byte at which the next bit is written, from 0
    /// for the most significant bit to 7.
    pub fn base10_bit_pointer(&self) -> (k: u8)
        requires
            self.wf(),
        ensures
            k == self@.len() % 8,
    {
        if self.bit_pointer == 0x80 {
            0
        } else if self.bit_pointer == 0x40 {
            1
        } else if self.bit_pointer == 0x20 {
            2
        } else if self.bit_pointer == 0x10 {
            3
        } else if self.bit_pointer == 0x08 {
            4
        } else if self.bit_pointer == 0x04 {
            5
        } else if self.bit_pointer == 0x02 {
            6
        } else {
            7
        }
    }

    /// The number of bits in the buffer.
    pub fn bit_len(&self) -> (n: usize)
        requires
            self.wf(),
        ensures
            n == self@.len(),
    {
        let k: u8 = self.base10_bit_pointer();
        8 * (self.data.len() - 1) + k as usize
    }

    /// The bit at position `i`.
    pub fn get(&self, i: usize) -> (b: bool)
        requires
            self.wf(),
            i < self@.len(),
        ensures
            b == self@[i as int],
    {
        let k: u8 = (i % 8) as u8;
        proof {
            lemma_shift_table();
        }
        self.data[i / 8] & (0x80u8 >> k) != 0
    }

    /// The packed bytes of the buffer.
    pub fn bytes(&self) -> (r: &Vec<u8>)
        requires
            self.wf(),
        ensures
            r@ == packed(self@),
    {
        proof {
            self.lemma_storage();
        }
        &self.data
    }

    /// Appends the bit `b`.
    pub fn set_bit(&mut self, b: bool)
        requires
            old(self).wf(),
            old(self)@.len() < MAX_BITS,
        ensures
            final(self).wf(),
            final(self)@ == old(self)@.push(b),
    {
        let last = self.data.len() - 1;
        let m = self.bit_pointer;
        let ghost x = self.data@[last as int];
        proof {
            lemma_one_hot(m);
            lemma_shift_table();
            if m != 1 {
                lemma_tail_after_write(x, m);
            }
            lemma_tail_is_clear(x, m, m);
        }
        if b {
            let byte = self.data[last] | m;
            self.data.set(last, byte);
        }
        if m == 0x01 {
            self.bit_pointer = 0x80;
            self.data.push(0);
            proof {
                lemma_mask_ops(0, tail_of(0x80));
            }
        } else {
            self.bit_pointer = m >> 1;
        }
        proof {
            let before = old(self)@;
            let after = self@;
            let n = before.len() as int;
            assert(after.len() == n + 1);
            assert forall|i: int| 0 <= i < n + 1 implies after[i] == before.push(b)[i] by {
                let k = i % 8;
                if i / 8 == last {
                    lemma_one_hot(mask_of(k));
                    if i < n {
                        lemma_or_keeps_others(x, m, mask_of(k));
                    } else {
                        lemma_mask_ops(x, m);
                    }
                }
            }
            assert(after =~= before.push(b));
        }
    }

    /// Removes the last `u` bits.
    pub fn unset(&mut self, u: usize)
        requires
            old(self).wf(),
            u <= old(self)@.len(),
        ensures
            final(self).wf(),
            final(self)@ == old(self)@.take(old(self)@.len() - u),
    {
        let keep = self.bit_len() - u;
        let bytes = keep / 8 + 1;
        let k: u8 = (keep % 8) as u8;
        proof {
            lemma_shift_table();
        }
        let m: u8 = 0x80u8 >> k;
        proof {
            lemma_one_hot(m);
        }
        self.data.truncate(bytes);
        let last = bytes - 1;
        let ghost x = self.data@[last as int];
        let byte = self.data[last] & !(m | (m - 1));
        self.data.set(last, byte);
        self.bit_pointer = m;
        proof {
            lemma_mask_ops(x, m);
            let before = old(self)@;
            let after = self@;
            assert(after.len() == keep);
            assert forall|i: int| 0 <= i < keep implies after[i] == before[i] by {
                let j = i % 8;
                if i / 8 == last {
                    lemma_one_hot(mask_of(j));
                    lemma_clear_tail(x, m, mask_of(j));
                }
            }
            assert(after =~= before.take(keep as int));
        }
    }

    /// Appends every bit of `b`, in order.
    pub fn append(&mut self, b: BitString)
        requires
            old(self).wf(),
            b.wf(),
            old(self)@.len() + b@.len() <= MAX_BITS,
        ensures
            final(self).wf(),
            final(self)@ == old(self)@ + b@,
    {
        let n = b.bit_len();
        let mut i: usize = 0;
        while i < n
            invariant
                self.wf(),
                b.wf(),
                n == b@.len(),
                i <= n,
                old(self)@.len() + n <= MAX_BITS,
                self@ == old(self)@ + b@.take(i as int),
            decreases n - i,
        {
            let bit = b.get(i);
            self.set_bit(bit);
            proof {
                assert(b@.take(i + 1) =~= b@.take(i as int).push(bit));
                assert(self@ =~= old(self)@ + b@.take(i + 1));
            }
            i = i + 1;
        }
        proof {
            assert(b@.take(n as int) =~= b@);
        }
    }
}

impl Clone for BitString {
    /// A copy of the buffer as it is now.
    fn clone(&self) -> (s: Self)
        ensures
            s@ == self@,
            self.wf() ==> s.wf(),
    {
        let s = BitString { data: self.data.clone(), bit_pointer: self.bit_pointer };
        proof {
            assert(s.data@ =~= self.data@);
            assert(s@ =~= self@);
        }
        s
    }
}

} // verus!
