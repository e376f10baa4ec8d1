//! Fixed-size bit sequence over piece indices.
//!
//! Serializes to `ceil(n / 8)` bytes, the high bit of the first byte holding
//! bit 0.  Unused trailing bits of the last byte are zero.

use vstd::prelude::*;

verus! {

/// A fixed-size ordered sequence of booleans, one per piece index.
pub struct Bitfield {
    bits: Vec<bool>,
}

/// Returned by the bounds-checked accessors when the index is past the end.
#[derive(Debug, PartialEq, Eq, Structural)]
pub struct OutOfBoundsError {
    pub index: usize,
    pub len: usize,
}

impl View for Bitfield {
    type V = Seq<bool>;

    closed spec fn view(&self) -> Seq<bool> {
        self.bits@
    }
}

/// 1 if bit `i` is set (and in range), 0 otherwise.
pub open spec fn bit_of(s: Seq<bool>, i: int) -> u8 {
    if 0 <= i < s.len() && s[i] {
        1u8
    } else {
        0u8
    }
}

/// The byte that bits `8k .. 8k + 8` pack to, high bit first.
pub open spec fn packed_byte(s: Seq<bool>, k: int) -> u8 {
    (128 * bit_of(s, 8 * k) + 64 * bit_of(s, 8 * k + 1) + 32 * bit_of(s, 8 * k + 2) + 16 * bit_of(
        s,
        8 * k + 3,
    ) + 8 * bit_of(s, 8 * k + 4) + 4 * bit_of(s, 8 * k + 5) + 2 * bit_of(s, 8 * k + 6) + bit_of(
        s,
        8 * k + 7,
    )) as u8
}

/// The place value of bit `j` within a byte, high bit first.
pub open spec fn bit_weight(j: int) -> int {
    if j == 0 {
        128
    } else if j == 1 {
        64
    } else if j == 2 {
        32
    } else if j == 3 {
        16
    } else if j == 4 {
        8
    } else if j == 5 {
        4
    } else if j == 6 {
        2
    } else {
        1
    }
}

/// Whether bit `j` (high bit first) of byte `v` is set.
pub open spec fn byte_bit(v: u8, j: int) -> bool {
    (v as int / bit_weight(j)) % 2 == 1
}

/// The byte serialization of a bit sequence.
pub open spec fn spec_to_bytes(s: Seq<bool>) -> Seq<u8> {
    Seq::new(((s.len() + 7) / 8) as nat, |k: int| packed_byte(s, k))
}

/// The first `n` bits read out of a byte sequence, high bit of each byte first.
pub open spec fn spec_from_bytes(bytes: Seq<u8>, n: nat) -> Seq<bool> {
    Seq::new(n, |i: int| byte_bit(bytes[i / 8], i % 8))
}

proof fn lemma_byte_decomp(b0: u8, b1: u8, b2: u8, b3: u8, b4: u8, b5: u8, b6: u8, b7: u8)
    requires
        b0 < 2,
        b1 < 2,
        b2 < 2,
        b3 < 2,
        b4 < 2,
        b5 < 2,
        b6 < 2,
        b7 < 2,
    ensures
        (128 * b0 + 64 * b1 + 32 * b2 + 16 * b3 + 8 * b4 + 4 * b5 + 2 * b6 + b7) / 128 % 2
            == b0 as int,
        (128 * b0 + 64 * b1 + 32 * b2 + 16 * b3 + 8 * b4 + 4 * b5 + 2 * b6 + b7) / 64 % 2
            == b1 as int,
        (128 * b0 + 64 * b1 + 32 * b2 + 16 * b3 + 8 * b4 + 4 * b5 + 2 * b6 + b7) / 32 % 2
            == b2 as int,
        (128 * b0 + 64 * b1 + 32 * b2 + 16 * b3 + 8 * b4 + 4 * b5 + 2 * b6 + b7) / 16 % 2
            == b3 as int,
        (128 * b0 + 64 * b1 + 32 * b2 + 16 * b3 + 8 * b4 + 4 * b5 + 2 * b6 + b7) / 8 % 2
            == b4 as int,
        (128 * b0 + 64 * b1 + 32 * b2 + 16 * b3 + 8 * b4 + 4 * b5 + 2 * b6 + b7) / 4 % 2
            == b5 as int,
        (128 * b0 + 64 * b1 + 32 * b2 + 16 * b3 + 8 * b4 + 4 * b5 + 2 * b6 + b7) / 2 % 2
            == b6 as int,
        (128 * b0 + 64 * b1 + 32 * b2 + 16 * b3 + 8 * b4 + 4 * b5 + 2 * b6 + b7) % 2 == b7 as int,
{
    assert((128 * b0 + 64 * b1 + 32 * b2 + 16 * b3 + 8 * b4 + 4 * b5 + 2 * b6 + b7) / 128 % 2
        == b0 as int) by (bit_vector)
        requires
            b0 < 2 && b1 < 2 && b2 < 2 && b3 < 2 && b4 < 2 && b5 < 2 && b6 < 2 && b7 < 2,
    ;
    assert((128 * b0 + 64 * b1 + 32 * b2 + 16 * b3 + 8 * b4 + 4 * b5 + 2 * b6 + b7) / 64 % 2
        == b1 as int) by (bit_vector)
        requires
            b0 < 2 && b1 < 2 && b2 < 2 && b3 < 2 && b4 < 2 && b5 < 2 && b6 < 2 && b7 < 2,
    ;
    assert((128 * b0 + 64 * b1 + 32 * b2 + 16 * b3 + 8 * b4 + 4 * b5 + 2 * b6 + b7) / 32 % 2
        == b2 as int) by (bit_vector)
        requires
            b0 < 2 && b1 < 2 && b2 < 2 && b3 < 2 && b4 < 2 && b5 < 2 && b6 < 2 && b7 < 2,
    ;
    assert((128 * b0 + 64 * b1 + 32 * b2 + 16 * b3 + 8 * b4 + 4 * b5 + 2 * b6 + b7) / 16 % 2
        == b3 as int) by (bit_vector)
        requires
            b0 < 2 && b1 < 2 && b2 < 2 && b3 < 2 && b4 < 2 && b5 < 2 && b6 < 2 && b7 < 2,
    ;
    assert((128 * b0 + 64 * b1 + 32 * b2 + 16 * b3 + 8 * b4 + 4 * b5 + 2 * b6 + b7) / 8 % 2
        == b4 as int) by (bit_vector)
        requires
            b0 < 2 && b1 < 2 && b2 < 2 && b3 < 2 && b4 < 2 && b5 < 2 && b6 < 2 && b7 < 2,
    ;
    assert((128 * b0 + 64 * b1 + 32 * b2 + 16 * b3 + 8 * b4 + 4 * b5 + 2 * b6 + b7) / 4 % 2
        == b5 as int) by (bit_vector)
        requires
            b0 < 2 && b1 < 2 && b2 < 2 && b3 < 2 && b4 < 2 && b5 < 2 && b6 < 2 && b7 < 2,
    ;
    assert((128 * b0 + 64 * b1 + 32 * b2 + 16 * b3 + 8 * b4 + 4 * b5 + 2 * b6 + b7) / 2 % 2
        == b6 as int) by (bit_vector)
        requires
            b0 < 2 && b1 < 2 && b2 < 2 && b3 < 2 && b4 < 2 && b5 < 2 && b6 < 2 && b7 < 2,
    ;
    assert((128 * b0 + 64 * b1 + 32 * b2 + 16 * b3 + 8 * b4 + 4 * b5 + 2 * b6 + b7) % 2
        == b7 as int) by (bit_vector)
        requires
            b0 < 2 && b1 < 2 && b2 < 2 && b3 < 2 && b4 < 2 && b5 < 2 && b6 < 2 && b7 < 2,
    ;
}

/// Reading bit `j` back out of a packed byte gives the bit that went in.
proof fn lemma_pack_unpack(s: Seq<bool>, k: int, j: int)
    requires
        0 <= j < 8,
    ensures
        byte_bit(packed_byte(s, k), j) == (0 <= 8 * k + j < s.len() && s[8 * k + j]),
{
    lemma_byte_decomp(
        bit_of(s, 8 * k),
        bit_of(s, 8 * k + 1),
        bit_of(s, 8 * k + 2),
        bit_of(s, 8 * k + 3),
        bit_of(s, 8 * k + 4),
        bit_of(s, 8 * k + 5),
        bit_of(s, 8 * k + 6),
        bit_of(s, 8 * k + 7),
    );
}

/// Serializing a bit sequence and reading it back under its own length is the
/// identity, for every length and every bit pattern; and every serialized bit
/// past the end of the sequence (the pad bits of the last byte) is zero.
pub proof fn lemma_bitfield_roundtrip(s: Seq<bool>)
    ensures
        spec_from_bytes(spec_to_bytes(s), s.len()) == s,
        forall|j: int|
            s.len() <= j < 8 * spec_to_bytes(s).len() ==> !byte_bit(
                #[trigger] spec_to_bytes(s)[j / 8],
                j % 8,
            ),
{
    let b = spec_to_bytes(s);
    assert forall|i: int| 0 <= i < s.len() implies spec_from_bytes(b, s.len())[i] == s[i] by {
        lemma_pack_unpack(s, i / 8, i % 8);
    }
    assert(spec_from_bytes(b, s.len()) =~= s);
    assert forall|j: int| s.len() <= j < 8 * b.len() implies !byte_bit(#[trigger] b[j / 8], j % 8) by {
        lemma_pack_unpack(s, j / 8, j % 8);
    }
}

impl Bitfield {
    /// An all-zero bitfield of length `size`.
    pub fn new(size: usize) -> (r: Self)
        ensures
            r@ == Seq::new(size as nat, |i: int| false),
    {
        let mut bits: Vec<bool> = Vec::new();
        let mut i: usize = 0;
        while i < size
            invariant
                i <= size,
                bits@ =~= Seq::new(i as nat, |j: int| false),
            decreases size - i,
        {
            bits.push(false);
            i = i + 1;
        }
        assert(bits@ =~= Seq::new(size as nat, |i: int| false));
        Bitfield { bits }
    }

    /// The number of bits.
    pub fn len(&self) -> (r: usize)
        ensures
            r == self@.len(),
    {
        self.bits.len()
    }

    /// Sets bit `index` to `value`; out of range fails and leaves the bits alone.
    pub fn set(&mut self, index: usize, value: bool) -> (r: Result<(), OutOfBoundsError>)
        ensures
            index < old(self)@.len() ==> r is Ok && final(self)@ == old(self)@.update(
                index as int,
                value,
            ),
            index >= old(self)@.len() ==> r == Err::<(), OutOfBoundsError>(
                OutOfBoundsError { index, len: old(self)@.len() as usize },
            ) && final(self)@ == old(self)@,
    {
        if index >= self.bits.len() {
            return Err(OutOfBoundsError { index, len: self.bits.len() });
        }
        self.bits.set(index, value);
        Ok(())
    }

    /// Reads bit `index`; out of range fails distinguishably.
    pub fn is_set(&self, index: usize) -> (r: Result<bool, OutOfBoundsError>)
        ensures
            index < self@.len() ==> r == Ok::<bool, OutOfBoundsError>(self@[index as int]),
            index >= self@.len() ==> r == Err::<bool, OutOfBoundsError>(
                OutOfBoundsError { index, len: self@.len() as usize },
            ),
    {
        if index >= self.bits.len() {
            return Err(OutOfBoundsError { index, len: self.bits.len() });
        }
        Ok(self.bits[index])
    }

    /// Serializes to `ceil(len / 8)` bytes, bit 0 in the high bit of byte 0;
    /// unused trailing bits are zero.
    pub fn to_bytes(&self) -> (r: Vec<u8>)
        ensures
            r@ == spec_to_bytes(self@),
    {
        let n = self.bits.len();
        let nbytes = n / 8 + if n % 8 == 0 {
            0
        } else {
            1
        };
        assert(nbytes == (n + 7) / 8);
        let mut bytes: Vec<u8> = Vec::new();
        let mut k: usize = 0;
        while k < nbytes
            invariant
                k <= nbytes,
                n == self@.len(),
                nbytes == (n + 7) / 8,
                bytes@.len() == k,
                forall|q: int| 0 <= q < k ==> bytes@[q] == packed_byte(self@, q),
            decreases nbytes - k,
        {
            assert(8 * k + 7 < 8 * nbytes);
            let base = 8 * k;
            let mut byte: u8 = 0;
            if base < n && self.bits[base] {
                byte = byte + 128;
            }
            if base + 1 < n && self.bits[base + 1] {
                byte = byte + 64;
            }
            if base + 2 < n && self.bits[base + 2] {
                byte = byte + 32;
            }
            if base + 3 < n && self.bits[base + 3] {
                byte = byte + 16;
            }
            if base + 4 < n && self.bits[base + 4] {
                byte = byte + 8;
            }
            if base + 5 < n && self.bits[base + 5] {
                byte = byte + 4;
            }
            if base + 6 < n && self.bits[base + 6] {
                byte = byte + 2;
            }
            if base + 7 < n && self.bits[base + 7] {
                byte = byte + 1;
            }
            assert(byte == packed_byte(self@, k as int));
            bytes.push(byte);
            k = k + 1;
        }
        assert(bytes@ =~= spec_to_bytes(self@));
        bytes
    }

    /// Reads `n` bits out of `ceil(n / 8)` bytes, the high bit of byte 0 being
    /// bit 0.  Pad bits of the last byte are ignored, set or not.
    pub fn from_bytes(bytes: &Vec<u8>, n: usize) -> (r: Bitfield)
        requires
            bytes@.len() == (n + 7) / 8,
        ensures
            r@ == spec_from_bytes(bytes@, n as nat),
    {
        let mut bits: Vec<bool> = Vec::new();
        let mut i: usize = 0;
        while i < n
            invariant
                i <= n,
                bytes@.len() == (n + 7) / 8,
                bits@.len() == i,
                forall|q: int| 0 <= q < i ==> bits@[q] == byte_bit(bytes@[q / 8], q % 8),
            decreases n - i,
        {
            assert(i / 8 < bytes@.len());
            let b = bytes[i / 8];
            let j = i % 8;
            let w: u8 = if j == 0 {
                128
            } else if j == 1 {
                64
            } else if j == 2 {
                32
            } else if j == 3 {
                16
            } else if j == 4 {
                8
            } else if j == 5 {
                4
            } else if j == 6 {
                2
            } else {
                1
            };
            assert(w as int == bit_weight(i as int % 8));
            bits.push(b / w % 2 == 1);
            i = i + 1;
        }
        assert(bits@ =~= spec_from_bytes(bytes@, n as nat));
        Bitfield { bits }
    }
}

} // verus!
