//! A reader for the CDR (Common Data Representation) encoding used by ROS 2.
//!
//! The first four bytes of a message are the encapsulation header; bit 0 of the
//! second byte selects little endian. Every primitive of `n > 1` bytes is aligned
//! to a multiple of `n`, counted from the end of the header.
use vstd::prelude::*;
use vstd::utf8::*;
use crate::decode::Error;
use crate::text::str_from_utf8;

verus! {

/// The value of a sequence of bytes read least significant byte first.
pub open spec fn uint_le(s: Seq<u8>) -> nat
    decreases s.len(),
{
    if s.len() == 0 {
        0
    } else {
        s[0] as nat + 256 * uint_le(s.drop_first())
    }
}

/// The value of a sequence of bytes in the given byte order.
pub open spec fn uint_of(s: Seq<u8>, little_endian: bool) -> nat {
    if little_endian {
        uint_le(s)
    } else {
        uint_le(s.reverse())
    }
}

/// `256` to the power `n`.
pub open spec fn pow256(n: nat) -> nat
    decreases n,
{
    if n == 0 {
        1
    } else {
        256 * pow256((n - 1) as nat)
    }
}

/// The two's complement reading of `u`, where `half` is half the range of the type.
pub open spec fn twos(u: int, half: int) -> int {
    if u >= half {
        u - 2 * half
    } else {
        u
    }
}

/// The smallest multiple of `size` that is at least `offset` (offset itself for sizes up to 1).
pub open spec fn aligned(offset: int, size: int) -> int {
    if size > 1 {
        if offset % size == 0 {
            offset
        } else {
            offset + (size - offset % size)
        }
    } else {
        offset
    }
}

/// Whether a primitive of `size` bytes, read at `offset`, lies inside `len` bytes.
pub open spec fn fits(len: int, offset: int, size: int) -> bool {
    0 <= offset && aligned(offset, size) + size <= len
}

/// The bytes of a primitive of `size` bytes read at `offset`.
pub open spec fn field_bytes(data: Seq<u8>, offset: int, size: int) -> Seq<u8> {
    data.subrange(aligned(offset, size), aligned(offset, size) + size)
}

/// The unsigned value of a primitive of `size` bytes read at `offset`.
pub open spec fn read_uint(data: Seq<u8>, offset: int, size: int, little_endian: bool) -> nat {
    uint_of(field_bytes(data, offset, size), little_endian)
}

pub proof fn lemma_uint_le_bound(s: Seq<u8>)
    ensures
        uint_le(s) < pow256(s.len()),
    decreases s.len(),
{
    if s.len() > 0 {
        lemma_uint_le_bound(s.drop_first());
    }
}

proof fn lemma_pow256_values()
    ensures
        pow256(1) == 0x100,
        pow256(2) == 0x1_0000,
        pow256(4) == 0x1_0000_0000,
        pow256(8) == 0x1_0000_0000_0000_0000,
{
    reveal_with_fuel(pow256, 9);
}

/// The declared length of a string read at `offset` (it counts the terminating NUL).
pub open spec fn str_len(data: Seq<u8>, offset: int, little_endian: bool) -> nat {
    read_uint(data, offset, 4, little_endian)
}

/// Where the characters of a string read at `offset` start.
pub open spec fn str_start(offset: int) -> int {
    aligned(offset, 4) + 4
}

/// The position after a string read at `offset`.
pub open spec fn str_end(data: Seq<u8>, offset: int, little_endian: bool) -> int {
    str_start(offset) + str_len(data, offset, little_endian)
}

/// The bytes of a string read at `offset`, without the terminating NUL.
pub open spec fn str_bytes(data: Seq<u8>, offset: int, little_endian: bool) -> Seq<u8> {
    if str_len(data, offset, little_endian) <= 1 {
        Seq::empty()
    } else {
        data.subrange(str_start(offset), str_end(data, offset, little_endian) - 1)
    }
}

/// Whether a string can be read at `offset` without reading past `data` or moving
/// the position beyond `usize::MAX`.
pub open spec fn str_readable(data: Seq<u8>, offset: int, little_endian: bool) -> bool {
    &&& fits(data.len() as int, offset, 4)
    &&& str_end(data, offset, little_endian) <= usize::MAX
    &&& str_len(data, offset, little_endian) > 1 ==> str_end(data, offset, little_endian) - 1 <= data.len()
}

#[derive(Clone, Copy)]
pub struct CdrReader<'a> {
    data: &'a [u8],
    offset: usize,
    little_endian: bool,
}

impl<'a> CdrReader<'a> {
    /// The bytes after the encapsulation header.
    pub closed spec fn bytes(&self) -> Seq<u8> {
        self.data@
    }

    /// The current read position, counted from the end of the header.
    pub closed spec fn pos(&self) -> usize {
        self.offset
    }

    /// Whether the data is little endian.
    pub closed spec fn is_little_endian(&self) -> bool {
        self.little_endian
    }

    /// Starts reading after the four-byte encapsulation header.
    pub fn new(data: &'a [u8]) -> (reader: CdrReader<'a>)
        requires
            data@.len() >= 4,
        ensures
            reader.bytes() == data@.skip(4),
            reader.pos() == 0,
            reader.is_little_endian() == (data@[1] % 2 == 1),
    {
        let flags = data[1];
        assert(flags & 1 == flags % 2) by (bit_vector);
        let little_endian = flags & 1 == 1;
        CdrReader { data: vstd::slice::slice_subrange(data, 4, data.len()), offset: 0, little_endian }
    }

    /// The current read position, counted from the end of the header.
    pub fn offset(&self) -> (o: usize)
        ensures
            o == self.pos(),
    {
        self.offset
    }

    /// The number of bytes after the header.
    pub fn len(&self) -> (n: usize)
        ensures
            n == self.bytes().len(),
    {
        self.data.len()
    }

    /// Whether a primitive of `size` bytes can be read at the current offset.
    pub fn fits(&self, size: usize) -> (b: bool)
        requires
            1 <= size <= 8,
        ensures
            b == fits(self.bytes().len() as int, self.pos() as int, size as int),
    {
        let n = self.data.len();
        let r = self.offset % size;
        let pad = if size > 1 && r != 0 { size - r } else { 0 };
        match self.offset.checked_add(pad) {
            Some(start) => match start.checked_add(size) {
                Some(end) => end <= n,
                None => false,
            },
            None => false,
        }
    }

    /// Moves the position to the next multiple of `size` (sizes up to 1
    /// leave it as it is).
    fn align(&mut self, size: usize)
        requires
            aligned(old(self).pos() as int, size as int) <= usize::MAX,
        ensures
            final(self).pos() == aligned(old(self).pos() as int, size as int),
            final(self).bytes() == old(self).bytes(),
            final(self).is_little_endian() == old(self).is_little_endian(),
    {
        if size > 1 {
            let r = self.offset % size;
            if r != 0 {
                self.offset = self.offset + (size - r);
            }
        }
    }

    /// Reads an unsigned value of `size` bytes, in the reader's byte order.
    fn uint(&mut self, size: usize) -> (v: u64)
        requires
            size == 2 || size == 4 || size == 8,
            fits(old(self).bytes().len() as int, old(self).pos() as int, size as int),
        ensures
            v == read_uint(old(self).bytes(), old(self).pos() as int, size as int, old(self).is_little_endian()),
            v < pow256(size as nat),
            final(self).pos() == aligned(old(self).pos() as int, size as int) + size,
            final(self).bytes() == old(self).bytes(),
            final(self).is_little_endian() == old(self).is_little_endian(),
    {
        let n = self.data.len();
        self.align(size);
        let start = self.offset;
        assert(start + size <= n);
        let ghost s = self.data@.subrange(start as int, start + size);
        proof {
            lemma_pow256_values();
        }
        let mut v: u64 = 0;
        if self.little_endian {
            let mut i = size;
            while i > 0
                invariant
                    0 <= i <= size,
                    size == 2 || size == 4 || size == 8,
                    start + size <= self.data@.len(),
                    n == self.data@.len(),
                    s == self.data@.subrange(start as int, start + size),
                    v == uint_le(s.subrange(i as int, size as int)),
                    v < pow256((size - i) as nat),
                    pow256(1) == 0x100,
                    pow256(2) == 0x1_0000,
                    pow256(4) == 0x1_0000_0000,
                    pow256(8) == 0x1_0000_0000_0000_0000,
                decreases i,
            {
                i = i - 1;
                let b = self.data[start + i];
                proof {
                    assert(s.subrange(i as int, size as int).drop_first() =~= s.subrange(i + 1, size as int));
                    lemma_uint_le_bound(s.subrange(i + 1, size as int));
                    lemma_pow256_monotone((size - i - 1) as nat, 7);
                }
                v = v * 256 + b as u64;
                proof {
                    assert(pow256((size - i) as nat) == 256 * pow256((size - i - 1) as nat));
                }
            }
            assert(s.subrange(0, size as int) =~= s);
        } else {
            let mut i: usize = 0;
            while i < size
                invariant
                    0 <= i <= size,
                    size == 2 || size == 4 || size == 8,
                    start + size <= self.data@.len(),
                    n == self.data@.len(),
                    s == self.data@.subrange(start as int, start + size),
                    v == uint_le(s.subrange(0, i as int).reverse()),
                    v < pow256(i as nat),
                    pow256(1) == 0x100,
                    pow256(2) == 0x1_0000,
                    pow256(4) == 0x1_0000_0000,
                    pow256(8) == 0x1_0000_0000_0000_0000,
                decreases size - i,
            {
                let b = self.data[start + i];
                proof {
                    assert(s.subrange(0, i + 1).reverse().drop_first() =~= s.subrange(0, i as int).reverse());
                    lemma_pow256_monotone(i as nat, 7);
                }
                v = v * 256 + b as u64;
                i = i + 1;
                proof {
                    assert(pow256(i as nat) == 256 * pow256((i - 1) as nat));
                }
            }
            assert(s.subrange(0, size as int) =~= s);
        }
        self.offset = start + size;
        v
    }

    /// Reads one byte as a boolean: any value but zero is true.
    pub fn bool(&mut self) -> (b: bool)
        requires
            old(self).pos() < old(self).bytes().len(),
        ensures
            b == (old(self).bytes()[old(self).pos() as int] != 0),
            final(self).pos() == old(self).pos() + 1,
            final(self).bytes() == old(self).bytes(),
            final(self).is_little_endian() == old(self).is_little_endian(),
    {
        self.u8() != 0
    }

    /// Reads one byte.
    pub fn u8(&mut self) -> (v: u8)
        requires
            old(self).pos() < old(self).bytes().len(),
        ensures
            v == old(self).bytes()[old(self).pos() as int],
            final(self).pos() == old(self).pos() + 1,
            final(self).bytes() == old(self).bytes(),
            final(self).is_little_endian() == old(self).is_little_endian(),
    {
        let value = self.data[self.offset];
        self.offset += 1;
        value
    }

    /// Reads one byte as a two's complement `int8`.
    pub fn i8(&mut self) -> (v: i8)
        requires
            old(self).pos() < old(self).bytes().len(),
        ensures
            v == twos(old(self).bytes()[old(self).pos() as int] as int, 0x80),
            final(self).pos() == old(self).pos() + 1,
            final(self).bytes() == old(self).bytes(),
            final(self).is_little_endian() == old(self).is_little_endian(),
    {
        let u = self.u8();
        if u >= 0x80 {
            (u as i16 - 0x100) as i8
        } else {
            u as i8
        }
    }

    /// Reads a `uint16`.
    pub fn u16(&mut self) -> (v: u16)
        requires
            fits(old(self).bytes().len() as int, old(self).pos() as int, 2),
        ensures
            v == read_uint(old(self).bytes(), old(self).pos() as int, 2, old(self).is_little_endian()),
            final(self).pos() == aligned(old(self).pos() as int, 2) + 2,
            final(self).bytes() == old(self).bytes(),
            final(self).is_little_endian() == old(self).is_little_endian(),
    {
        proof {
            lemma_pow256_values();
        }
        let v = self.uint(2);
        v as u16
    }

    /// Reads a `uint32`.
    pub fn u32(&mut self) -> (v: u32)
        requires
            fits(old(self).bytes().len() as int, old(self).pos() as int, 4),
        ensures
            v == read_uint(old(self).bytes(), old(self).pos() as int, 4, old(self).is_little_endian()),
            final(self).pos() == aligned(old(self).pos() as int, 4) + 4,
            final(self).bytes() == old(self).bytes(),
            final(self).is_little_endian() == old(self).is_little_endian(),
    {
        proof {
            lemma_pow256_values();
        }
        let v = self.uint(4);
        v as u32
    }

    /// Reads a `uint64`.
    pub fn u64(&mut self) -> (v: u64)
        requires
            fits(old(self).bytes().len() as int, old(self).pos() as int, 8),
        ensures
            v == read_uint(old(self).bytes(), old(self).pos() as int, 8, old(self).is_little_endian()),
            final(self).pos() == aligned(old(self).pos() as int, 8) + 8,
            final(self).bytes() == old(self).bytes(),
            final(self).is_little_endian() == old(self).is_little_endian(),
    {
        proof {
            lemma_pow256_values();
        }
        let v = self.uint(8);
        v as u64
    }

    /// Reads an `int16`.
    pub fn i16(&mut self) -> (v: i16)
        requires
            fits(old(self).bytes().len() as int, old(self).pos() as int, 2),
        ensures
            v == twos(read_uint(old(self).bytes(), old(self).pos() as int, 2, old(self).is_little_endian()) as int, 0x8000),
            final(self).pos() == aligned(old(self).pos() as int, 2) + 2,
            final(self).bytes() == old(self).bytes(),
            final(self).is_little_endian() == old(self).is_little_endian(),
    {
        proof {
            lemma_pow256_values();
        }
        let u = self.uint(2);
        if u >= 0x8000 {
            (u as i64 - 0x1_0000) as i16
        } else {
            u as i16
        }
    }

    /// Reads an `int32`.
    pub fn i32(&mut self) -> (v: i32)
        requires
            fits(old(self).bytes().len() as int, old(self).pos() as int, 4),
        ensures
            v == twos(read_uint(old(self).bytes(), old(self).pos() as int, 4, old(self).is_little_endian()) as int, 0x8000_0000),
            final(self).pos() == aligned(old(self).pos() as int, 4) + 4,
            final(self).bytes() == old(self).bytes(),
            final(self).is_little_endian() == old(self).is_little_endian(),
    {
        proof {
            lemma_pow256_values();
        }
        let u = self.uint(4);
        if u >= 0x8000_0000 {
            (u as i64 - 0x1_0000_0000) as i32
        } else {
            u as i32
        }
    }

    /// Reads an `int64`.
    pub fn i64(&mut self) -> (v: i64)
        requires
            fits(old(self).bytes().len() as int, old(self).pos() as int, 8),
        ensures
            v == twos(read_uint(old(self).bytes(), old(self).pos() as int, 8, old(self).is_little_endian()) as int, 0x8000_0000_0000_0000),
            final(self).pos() == aligned(old(self).pos() as int, 8) + 8,
            final(self).bytes() == old(self).bytes(),
            final(self).is_little_endian() == old(self).is_little_endian(),
    {
        proof {
            lemma_pow256_values();
        }
        let u = self.uint(8);
        if u >= 0x8000_0000_0000_0000 {
            ((u - 0x8000_0000_0000_0000) as i64) + i64::MIN
        } else {
            u as i64
        }
    }

    /// Reads a `float32` and returns its IEEE 754 bit pattern.
    pub fn f32_bits(&mut self) -> (v: u32)
        requires
            fits(old(self).bytes().len() as int, old(self).pos() as int, 4),
        ensures
            v == read_uint(old(self).bytes(), old(self).pos() as int, 4, old(self).is_little_endian()),
            final(self).pos() == aligned(old(self).pos() as int, 4) + 4,
            final(self).bytes() == old(self).bytes(),
            final(self).is_little_endian() == old(self).is_little_endian(),
    {
        self.u32()
    }

    /// Reads a `float64` and returns its IEEE 754 bit pattern.
    pub fn f64_bits(&mut self) -> (v: u64)
        requires
            fits(old(self).bytes().len() as int, old(self).pos() as int, 8),
        ensures
            v == read_uint(old(self).bytes(), old(self).pos() as int, 8, old(self).is_little_endian()),
            final(self).pos() == aligned(old(self).pos() as int, 8) + 8,
            final(self).bytes() == old(self).bytes(),
            final(self).is_little_endian() == old(self).is_little_endian(),
    {
        self.u64()
    }

    /// Whether a string can be read at the current position.
    pub fn str_fits(&self) -> (b: bool)
        ensures
            b == str_readable(self.bytes(), self.pos() as int, self.is_little_endian()),
    {
        if !self.fits(4) {
            return false;
        }
        let mut peek = *self;
        let length = peek.u32() as usize;
        let start = peek.offset;
        match start.checked_add(length) {
            Some(end) => length <= 1 || end - 1 <= self.data.len(),
            None => false,
        }
    }

    /// Reads a string: a `u32` length that counts the terminating NUL, then the bytes.
    /// A length of 0 or 1 gives the empty string.
    pub fn str(&mut self) -> (r: Result<&'a str, Error>)
        requires
            str_readable(old(self).bytes(), old(self).pos() as int, old(self).is_little_endian()),
        ensures
            final(self).pos() == str_end(old(self).bytes(), old(self).pos() as int, old(self).is_little_endian()),
            final(self).bytes() == old(self).bytes(),
            final(self).is_little_endian() == old(self).is_little_endian(),
            ({
                let bytes = str_bytes(old(self).bytes(), old(self).pos() as int, old(self).is_little_endian());
                match r {
                    Ok(s) => valid_utf8(bytes) && s@ == decode_utf8(bytes),
                    Err(e) => !valid_utf8(bytes) && e@ == (crate::decode::ErrorView::Utf8Error { data: bytes }),
                }
            }),
    {
        let length = self.u32() as usize;
        if length <= 1 {
            self.offset = self.offset + length;
            proof {
                reveal_strlit("");
                assert(str_bytes(old(self).bytes(), old(self).pos() as int, old(self).is_little_endian()) =~= Seq::<u8>::empty());
            }
            Ok("")
        } else {
            let data: &'a [u8] = self.data;
            let bytes = vstd::slice::slice_subrange(data, self.offset, self.offset + length - 1);
            self.offset = self.offset + length;
            match str_from_utf8(bytes) {
                Ok(s) => Ok(s),
                Err(error) => Err(Error::Utf8Error { error, data: vstd::slice::slice_to_vec(bytes) }),
            }
        }
    }
}

/// Every primitive of `size > 1` bytes is read at the first multiple of `size`
/// at or after the read position.
pub proof fn law_reads_are_aligned(offset: int, size: int)
    requires
        0 <= offset,
        2 <= size,
    ensures
        aligned(offset, size) % size == 0,
        offset <= aligned(offset, size) < offset + size,
        offset % size == 0 ==> aligned(offset, size) == offset,
{
    if offset % size != 0 {
        assert((offset + (size - offset % size)) % size == 0) by (nonlinear_arith)
            requires
                2 <= size,
                0 <= offset,
                0 < offset % size < size;
    }
}

/// Bytes after those a primitive occupies do not change the value read.
pub proof fn lemma_read_uint_ext(data: Seq<u8>, extra: Seq<u8>, offset: int, size: int, little_endian: bool)
    requires
        0 <= size,
        fits(data.len() as int, offset, size),
    ensures
        fits((data + extra).len() as int, offset, size),
        read_uint(data + extra, offset, size, little_endian) == read_uint(data, offset, size, little_endian),
{
    assert(offset <= aligned(offset, size));
    assert(field_bytes(data + extra, offset, size) =~= field_bytes(data, offset, size));
}

/// A one-byte primitive is the byte at the read position.
pub proof fn lemma_read_uint_1(data: Seq<u8>, offset: int, little_endian: bool)
    requires
        0 <= offset < data.len(),
    ensures
        read_uint(data, offset, 1, little_endian) == data[offset],
{
    let s = field_bytes(data, offset, 1);
    assert(s.drop_first().len() == 0);
    assert(uint_le(s) == s[0] as nat + 256 * uint_le(s.drop_first()));
    assert(s.reverse() =~= s);
}

proof fn lemma_pow256_monotone(a: nat, b: nat)
    requires
        a <= b,
    ensures
        pow256(a) <= pow256(b),
    decreases b,
{
    if a < b {
        lemma_pow256_monotone(a, (b - 1) as nat);
    }
}


/// A two-byte primitive read at the aligned position `a` is `d[a] + 256 d[a+1]`
/// in little endian and `256 d[a] + d[a+1]` in big endian.
pub proof fn law_read_two_bytes(data: Seq<u8>, offset: int)
    requires
        fits(data.len() as int, offset, 2),
    ensures
        ({
            let a = aligned(offset, 2);
            &&& read_uint(data, offset, 2, true) == data[a] + 256 * data[a + 1]
            &&& read_uint(data, offset, 2, false) == 256 * data[a] + data[a + 1]
        }),
{
    let a = aligned(offset, 2);
    let s = field_bytes(data, offset, 2);
    assert(offset <= a);
    reveal_with_fuel(uint_le, 3);
    assert(s[0] == data[a] && s[1] == data[a + 1]);
    assert(s.drop_first().drop_first().len() == 0);
    let r = s.reverse();
    assert(r[0] == data[a + 1] && r[1] == data[a]);
    assert(r.drop_first().drop_first().len() == 0);
    assert(uint_le(s.drop_first()) == s[1] as nat);
    assert(uint_le(r.drop_first()) == r[1] as nat);
}

/// A four-byte primitive read at the aligned position `a` is
/// `d[a] + 2^8 d[a+1] + 2^16 d[a+2] + 2^24 d[a+3]` in little endian, and the same
/// with the bytes in the other order in big endian.
pub proof fn law_read_four_bytes(data: Seq<u8>, offset: int)
    requires
        fits(data.len() as int, offset, 4),
    ensures
        ({
            let a = aligned(offset, 4);
            &&& read_uint(data, offset, 4, true)
                == data[a] + 0x100 * data[a + 1] + 0x1_0000 * data[a + 2] + 0x100_0000 * data[a + 3]
            &&& read_uint(data, offset, 4, false)
                == data[a + 3] + 0x100 * data[a + 2] + 0x1_0000 * data[a + 1] + 0x100_0000 * data[a]
        }),
{
    let a = aligned(offset, 4);
    let s = field_bytes(data, offset, 4);
    assert(offset <= a);
    let r = s.reverse();
    assert(s[0] == data[a] && s[1] == data[a + 1] && s[2] == data[a + 2] && s[3] == data[a + 3]);
    assert(r[0] == data[a + 3] && r[1] == data[a + 2] && r[2] == data[a + 1] && r[3] == data[a]);
    lemma_uint_le_4(s);
    lemma_uint_le_4(r);
}

proof fn lemma_uint_le_4(s: Seq<u8>)
    requires
        s.len() == 4,
    ensures
        uint_le(s) == s[0] + 0x100 * s[1] + 0x1_0000 * s[2] + 0x100_0000 * s[3],
{
    let s1 = s.drop_first();
    let s2 = s1.drop_first();
    let s3 = s2.drop_first();
    let s4 = s3.drop_first();
    assert(s4.len() == 0);
    assert(uint_le(s4) == 0);
    assert(uint_le(s3) == s[3] as nat);
    assert(uint_le(s2) == s[2] + 256 * s[3]);
    assert(uint_le(s1) == s[1] + 256 * s[2] + 0x1_0000 * s[3]);
}

} // verus!
