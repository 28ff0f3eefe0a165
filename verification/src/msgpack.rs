use vstd::prelude::*;

verus! {

pub const U8_MAX: usize = 255;

pub const U16_MAX: usize = 65535;

pub const U32_MAX: usize = 4294967295;

/// A msgpack object.
#[derive(Debug, PartialEq)]
pub enum MsgObject {
    Array(Vec<Box<MsgObject>>),
    Bin(Vec<u8>),
    Dict(Vec<(String, Box<MsgObject>)>),
    UInt(Vec<u8>),
    Bool(bool),
}

/// The two big-endian bytes of `x`.
pub open spec fn be16(x: u16) -> Seq<u8> {
    seq![(x >> 8u16) as u8, x as u8]
}

/// The four big-endian bytes of `x`.
pub open spec fn be32(x: u32) -> Seq<u8> {
    seq![(x >> 24u32) as u8, (x >> 16u32) as u8, (x >> 8u32) as u8, x as u8]
}

/// The eight big-endian bytes of `x`.
pub open spec fn be64(x: u64) -> Seq<u8> {
    seq![
        (x >> 56u64) as u8,
        (x >> 48u64) as u8,
        (x >> 40u64) as u8,
        (x >> 32u64) as u8,
        (x >> 24u64) as u8,
        (x >> 16u64) as u8,
        (x >> 8u64) as u8,
        x as u8,
    ]
}

/// The msgpack bytes of an unsigned integer in its shortest form: a positive fixint below
/// 128, else a marker for the narrowest of 8, 16, 32 and 64 bits that holds it, then its
/// big-endian bytes.
pub open spec fn uint_encoding(v: u64) -> Seq<u8> {
    if v < 128 {
        seq![v as u8]
    } else if v < 256 {
        seq![0xccu8, v as u8]
    } else if v < 65536 {
        seq![0xcdu8] + be16(v as u16)
    } else if v < 0x1_0000_0000 {
        seq![0xceu8] + be32(v as u32)
    } else {
        seq![0xcfu8] + be64(v)
    }
}

/// The msgpack head of an array of `len` elements.
pub open spec fn array_len_bytes(len: u32) -> Seq<u8> {
    if len < 16 {
        seq![(0x90u8 | len as u8)]
    } else if len <= U16_MAX {
        seq![0xdcu8] + be16(len as u16)
    } else {
        seq![0xddu8] + be32(len)
    }
}

/// The msgpack head of a binary of `len` bytes.
pub open spec fn bin_len_bytes(len: u32) -> Seq<u8> {
    if len <= U8_MAX {
        seq![0xc4u8, len as u8]
    } else if len <= U16_MAX {
        seq![0xc5u8] + be16(len as u16)
    } else {
        seq![0xc6u8] + be32(len)
    }
}

/// The msgpack bytes of an unsigned integer given by its one, two or four big-endian bytes:
/// a marker for its width, then the bytes.
pub open spec fn uint_bytes(b: Seq<u8>) -> Seq<u8> {
    if b.len() == 1 {
        seq![0xccu8] + b
    } else if b.len() == 2 {
        seq![0xcdu8] + b
    } else {
        seq![0xceu8] + b
    }
}

/// Whether the object can be written: it holds only arrays and binaries of at most
/// 2^32 - 1 entries, and unsigned integers of one, two or four bytes.
pub open spec fn encodable(o: MsgObject) -> bool
    decreases o,
{
    match o {
        MsgObject::Array(v) => v@.len() <= U32_MAX && encodable_all(v@),
        MsgObject::Bin(b) => b@.len() <= U32_MAX,
        MsgObject::UInt(b) => b@.len() == 1 || b@.len() == 2 || b@.len() == 4,
        _ => false,
    }
}

/// Whether every object of `s` can be written.
pub open spec fn encodable_all(s: Seq<Box<MsgObject>>) -> bool
    decreases s,
{
    if s.len() == 0 {
        true
    } else {
        encodable_all(s.drop_last()) && encodable(*s.last())
    }
}

/// The msgpack bytes of the object.
pub open spec fn encoding(o: MsgObject) -> Seq<u8>
    decreases o,
{
    match o {
        MsgObject::Array(v) => array_len_bytes(v@.len() as u32) + encoding_all(v@),
        MsgObject::Bin(b) => bin_len_bytes(b@.len() as u32) + b@,
        MsgObject::UInt(b) => uint_bytes(b@),
        _ => Seq::empty(),
    }
}

/// The msgpack bytes of the objects of `s`, one after the other.
pub open spec fn encoding_all(s: Seq<Box<MsgObject>>) -> Seq<u8>
    decreases s,
{
    if s.len() == 0 {
        Seq::empty()
    } else {
        encoding_all(s.drop_last()) + encoding(*s.last())
    }
}

/// Calls `rmp::encode::write_array_len` on an empty vector. rmp's source writes the marker
/// 0x90 | len for fewer than 16 elements, else 0xdc and the length as two big-endian bytes
/// when it fits in 16 bits, else 0xdd and the length as four big-endian bytes; writing to a
/// vector does not fail.
#[verifier::external_body]
pub(crate) fn rmp_write_array_len(len: u32) -> (r: Vec<u8>)
    ensures
        r@ == array_len_bytes(len),
{
    let mut v: Vec<u8> = Vec::new();
    rmp::encode::write_array_len(&mut v, len).unwrap();
    v
}

/// Calls `rmp::encode::write_uint` on an empty vector. rmp's source writes the value as a
/// positive fixint below 128, else with the marker 0xcc, 0xcd, 0xce or 0xcf of the narrowest
/// of 8, 16, 32 and 64 bits that holds it, followed by its big-endian bytes.
#[verifier::external_body]
pub(crate) fn rmp_write_uint(val: u64) -> (r: Vec<u8>)
    ensures
        r@ == uint_encoding(val),
{
    let mut v: Vec<u8> = Vec::new();
    rmp::encode::write_uint(&mut v, val).unwrap();
    v
}

/// Calls `rmp::encode::write_bin_len` on an empty vector: rmp's source writes 0xc4 and the
/// length as one byte below 256, else 0xc5 and two big-endian bytes when it fits in 16 bits,
/// else 0xc6 and four big-endian bytes.
#[verifier::external_body]
pub(crate) fn rmp_write_bin_len(len: u32) -> (r: Vec<u8>)
    ensures
        r@ == bin_len_bytes(len),
{
    let mut v: Vec<u8> = Vec::new();
    rmp::encode::write_bin_len(&mut v, len).unwrap();
    v
}

/// Calls `rmp::encode::write_bin` on an empty vector. rmp's source writes 0xc4 and the
/// length as one byte below 256, else 0xc5 and two big-endian bytes when it fits in 16 bits,
/// else 0xc6 and four big-endian bytes, and then the data.
#[verifier::external_body]
fn rmp_write_bin(data: &[u8]) -> (r: Vec<u8>)
    requires
        data@.len() <= U32_MAX,
    ensures
        r@ == bin_len_bytes(data@.len() as u32) + data@,
{
    let mut v: Vec<u8> = Vec::new();
    rmp::encode::write_bin(&mut v, data).unwrap();
    v
}

/// Calls `rmp::encode::write_u8` on an empty vector: rmp's source writes the marker 0xcc
/// and the byte.
#[verifier::external_body]
fn rmp_write_u8(val: u8) -> (r: Vec<u8>)
    ensures
        r@ == seq![0xccu8, val],
{
    let mut v: Vec<u8> = Vec::new();
    rmp::encode::write_u8(&mut v, val).unwrap();
    v
}

/// Calls `rmp::encode::write_u16` on an empty vector: rmp's source writes the marker 0xcd
/// and the two big-endian bytes of the value.
#[verifier::external_body]
fn rmp_write_u16(val: u16) -> (r: Vec<u8>)
    ensures
        r@ == seq![0xcdu8] + be16(val),
{
    let mut v: Vec<u8> = Vec::new();
    rmp::encode::write_u16(&mut v, val).unwrap();
    v
}

/// Calls `rmp::encode::write_u32` on an empty vector: rmp's source writes the marker 0xce
/// and the four big-endian bytes of the value.
#[verifier::external_body]
fn rmp_write_u32(val: u32) -> (r: Vec<u8>)
    ensures
        r@ == seq![0xceu8] + be32(val),
{
    let mut v: Vec<u8> = Vec::new();
    rmp::encode::write_u32(&mut v, val).unwrap();
    v
}

/// The number of bytes that the head of an array of `len` elements takes: a fixarray marker
/// below 16 elements, else a marker and a 16-bit length, else a marker and a 32-bit length.
pub open spec fn array_head_size(len: int) -> int {
    if len <= 15 {
        1
    } else if len <= U16_MAX {
        3
    } else {
        5
    }
}

/// The number of bytes that a binary of `len` bytes takes.
pub open spec fn bin_size(len: int) -> int {
    if len <= U8_MAX {
        2 + len
    } else if len <= U16_MAX {
        3 + len
    } else {
        5 + len
    }
}

/// Whether the size of the object is defined: it holds only arrays of at most 65535 elements,
/// binaries of 1 to 2^32 - 1 bytes, and unsigned integers.
pub open spec fn sizable(o: MsgObject) -> bool
    decreases o,
{
    match o {
        MsgObject::Array(v) => v@.len() <= U16_MAX && sizable_all(v@),
        MsgObject::Bin(b) => 1 <= b@.len() <= U32_MAX,
        MsgObject::UInt(_) => true,
        _ => false,
    }
}

/// Whether the size of every object of `s` is defined.
pub open spec fn sizable_all(s: Seq<Box<MsgObject>>) -> bool
    decreases s,
{
    if s.len() == 0 {
        true
    } else {
        sizable_all(s.drop_last()) && sizable(*s.last())
    }
}

/// The number of bytes the object takes in msgpack.
pub open spec fn size_of(o: MsgObject) -> int
    decreases o,
{
    match o {
        MsgObject::Array(v) => array_head_size(v@.len() as int) + size_of_all(v@),
        MsgObject::Bin(b) => bin_size(b@.len() as int),
        MsgObject::UInt(b) => b@.len() + 1int,
        _ => 0int,
    }
}

/// The number of bytes the objects of `s` take in msgpack.
pub open spec fn size_of_all(s: Seq<Box<MsgObject>>) -> int
    decreases s,
{
    if s.len() == 0 {
        0
    } else {
        size_of_all(s.drop_last()) + size_of(*s.last())
    }
}

proof fn lemma_size_nonneg(o: MsgObject)
    ensures
        size_of(o) >= 0,
    decreases o,
{
    match o {
        MsgObject::Array(v) => {
            lemma_size_all_nonneg(v@);
        },
        _ => {},
    }
}

proof fn lemma_size_all_nonneg(s: Seq<Box<MsgObject>>)
    ensures
        size_of_all(s) >= 0,
    decreases s,
{
    if s.len() > 0 {
        lemma_size_all_nonneg(s.drop_last());
        lemma_size_nonneg(*s.last());
    }
}

/// The sizes of the first objects of a sequence add up to at most the size of all of them,
/// and each object of a sequence whose objects all have a size has one.
proof fn lemma_size_all_take(s: Seq<Box<MsgObject>>, i: int)
    requires
        0 <= i < s.len(),
    ensures
        size_of_all(s.take(i + 1)) == size_of_all(s.take(i)) + size_of(*s[i]),
        size_of_all(s.take(i + 1)) <= size_of_all(s),
        sizable_all(s) ==> sizable(*s[i]) && sizable_all(s.take(i + 1)),
    decreases s.len(),
{
    assert(s.take(i + 1).drop_last() =~= s.take(i));
    if i + 1 < s.len() {
        lemma_size_all_take(s.drop_last(), i);
        assert(s.drop_last().take(i + 1) =~= s.take(i + 1));
        assert(s.drop_last().take(i) =~= s.take(i));
        lemma_size_nonneg(*s.last());
    } else {
        assert(s.take(i + 1) =~= s);
    }
}

/// The number of bytes the head of an array of `len` elements takes.
pub fn get_array_head_size(len: usize) -> (r: usize)
    requires
        len <= U16_MAX,
    ensures
        r == array_head_size(len as int),
{
    if len <= 15 {
        1
    } else {
        3
    }
}

/// The number of bytes a binary of `len` bytes takes.
pub fn get_bin_size_from_len(len: usize) -> (r: usize)
    requires
        1 <= len <= U32_MAX,
        len + 5 <= usize::MAX,
    ensures
        r == bin_size(len as int),
{
    if len <= U8_MAX {
        2 + len
    } else if len <= U16_MAX {
        3 + len
    } else {
        5 + len
    }
}

/// The number of bytes the objects of `vec`, with the head of the array, take.
fn get_array_size(vec: &Vec<Box<MsgObject>>) -> (r: usize)
    requires
        vec@.len() <= U16_MAX,
        sizable_all(vec@),
        array_head_size(vec@.len() as int) + size_of_all(vec@) <= usize::MAX,
    ensures
        r == array_head_size(vec@.len() as int) + size_of_all(vec@),
    decreases vec@, 0int,
{
    let mut size = get_array_head_size(vec.len());
    let mut i: usize = 0;
    proof {
        assert(vec@.take(0) =~= Seq::<Box<MsgObject>>::empty());
    }
    while i < vec.len()
        invariant
            i <= vec@.len(),
            vec@.len() <= U16_MAX,
            sizable_all(vec@),
            array_head_size(vec@.len() as int) + size_of_all(vec@) <= usize::MAX,
            size == array_head_size(vec@.len() as int) + size_of_all(vec@.take(i as int)),
        decreases vec@.len() - i,
    {
        proof {
            lemma_size_all_take(vec@, i as int);
            lemma_size_all_nonneg(vec@.take(i as int));
        }
        let s = msg_size(&vec[i]);
        size = size + s;
        i = i + 1;
    }
    proof {
        assert(vec@.take(i as int) =~= vec@);
    }
    size
}

/// The number of bytes a binary takes.
fn get_bin_size(bin: &[u8]) -> (r: usize)
    requires
        1 <= bin@.len() <= U32_MAX,
        bin@.len() + 5 <= usize::MAX,
    ensures
        r == bin_size(bin@.len() as int),
{
    let l = bin.len();
    get_bin_size_from_len(l)
}

/// The number of bytes the object takes in msgpack.
pub fn msg_size(object: &MsgObject) -> (r: usize)
    requires
        sizable(*object),
        size_of(*object) <= usize::MAX,
    ensures
        r == size_of(*object),
    decreases *object, 1int,
{
    match object {
        MsgObject::Array(vec) => get_array_size(vec),
        MsgObject::Bin(bin) => get_bin_size(bin.as_slice()),
        MsgObject::UInt(bin) => bin.len() + 1,
        _ => {
            proof {
                assert(false);
            }
            0
        },
    }
}

/// A writer into a buffer of bytes: the buffer and the position of the next byte.
pub struct Cursor {
    buf: Vec<u8>,
    pos: usize,
}

impl Cursor {
    /// The bytes of the buffer.
    pub closed spec fn bytes(&self) -> Seq<u8> {
        self.buf@
    }

    /// The position of the next byte to write.
    pub closed spec fn spec_position(&self) -> nat {
        self.pos as nat
    }

    /// A writer at the start of `buf`.
    pub fn new(buf: Vec<u8>) -> (c: Cursor)
        ensures
            c.bytes() == buf@,
            c.spec_position() == 0,
    {
        Cursor { buf, pos: 0 }
    }

    /// The position of the next byte to write.
    pub fn position(&self) -> (r: u64)
        ensures
            r == self.spec_position(),
    {
        self.pos as u64
    }

    /// The buffer.
    pub fn into_inner(self) -> (r: Vec<u8>)
        ensures
            r@ == self.bytes(),
    {
        self.buf
    }

    /// Writes `data` at the position and moves past it.
    fn write_all(&mut self, data: &Vec<u8>)
        requires
            old(self).spec_position() + data@.len() <= old(self).bytes().len(),
        ensures
            final(self).bytes() == old(self).bytes().subrange(0, old(self).spec_position() as int)
                + data@ + old(self).bytes().subrange(
                (old(self).spec_position() + data@.len()) as int,
                old(self).bytes().len() as int,
            ),
            final(self).spec_position() == old(self).spec_position() + data@.len(),
    {
        let mut i: usize = 0;
        let start = self.pos;
        proof {
            assert(self.buf.len() == self.buf@.len());
        }
        while i < data.len()
            invariant
                old(self).bytes().len() <= usize::MAX,
                start == old(self).spec_position(),
                self.pos == start + i,
                i <= data@.len(),
                start + data@.len() <= old(self).bytes().len(),
                self.buf@.len() == old(self).bytes().len(),
                self.buf@ =~= old(self).bytes().subrange(0, start as int) + data@.subrange(
                    0,
                    i as int,
                ) + old(self).bytes().subrange(start + i, old(self).bytes().len() as int),
            decreases data@.len() - i,
        {
            self.buf.set(self.pos, data[i]);
            self.pos = self.pos + 1;
            i = i + 1;
            proof {
                assert(self.buf@ =~= old(self).bytes().subrange(0, start as int) + data@.subrange(
                    0,
                    i as int,
                ) + old(self).bytes().subrange(start + i, old(self).bytes().len() as int));
            }
        }
        proof {
            assert(data@.subrange(0, data@.len() as int) =~= data@);
        }
    }
}

/// The msgpack bytes of an unsigned integer given by its one, two or four big-endian bytes.
fn int_bytes(bin: &[u8]) -> (r: Vec<u8>)
    requires
        bin@.len() == 1 || bin@.len() == 2 || bin@.len() == 4,
    ensures
        r@ == uint_bytes(bin@),
{
    if bin.len() == 1 {
        rmp_write_u8(bin[0])
    } else if bin.len() == 2 {
        let v = ((bin[0] as u16) << 8u16) | (bin[1] as u16);
        let r = rmp_write_u16(v);
        proof {
            let b0 = bin@[0];
            let b1 = bin@[1];
            assert((((((b0 as u16) << 8u16) | (b1 as u16)) >> 8u16) as u8) == b0 && ((((b0 as u16)
                << 8u16) | (b1 as u16)) as u8) == b1) by (bit_vector);
            assert(r@ =~= uint_bytes(bin@));
        }
        r
    } else {
        let v = ((bin[0] as u32) << 24u32) | ((bin[1] as u32) << 16u32) | ((bin[2] as u32) << 8u32)
            | (bin[3] as u32);
        let r = rmp_write_u32(v);
        proof {
            let b0 = bin@[0];
            let b1 = bin@[1];
            let b2 = bin@[2];
            let b3 = bin@[3];
            let x = ((b0 as u32) << 24u32) | ((b1 as u32) << 16u32) | ((b2 as u32) << 8u32) | (
            b3 as u32);
            assert(x == ((b0 as u32) << 24u32) | ((b1 as u32) << 16u32) | ((b2 as u32) << 8u32) | (
            b3 as u32) ==> ((x >> 24u32) as u8) == b0 && ((x >> 16u32) as u8) == b1 && ((x
                >> 8u32) as u8) == b2 && (x as u8) == b3) by (bit_vector);
            assert(r@ =~= uint_bytes(bin@));
        }
        r
    }
}

/// Writes an unsigned integer, given by its one, two or four big-endian bytes, as msgpack.
pub fn write_int(w: &mut Cursor, bin: &[u8])
    requires
        bin@.len() == 1 || bin@.len() == 2 || bin@.len() == 4,
        old(w).spec_position() + bin@.len() + 1 <= old(w).bytes().len(),
    ensures
        final(w).bytes() == old(w).bytes().subrange(0, old(w).spec_position() as int) + uint_bytes(
            bin@,
        ) + old(w).bytes().subrange(
            (old(w).spec_position() + bin@.len() + 1) as int,
            old(w).bytes().len() as int,
        ),
        final(w).spec_position() == old(w).spec_position() + bin@.len() + 1,
{
    let bytes = int_bytes(bin);
    w.write_all(&bytes);
}

/// The msgpack bytes of an array of the objects of `vec`.
fn encode_array(vec: &Vec<Box<MsgObject>>) -> (r: Vec<u8>)
    requires
        vec@.len() <= U32_MAX,
        encodable_all(vec@),
    ensures
        r@ == array_len_bytes(vec@.len() as u32) + encoding_all(vec@),
    decreases vec@, 0int,
{
    let mut r = rmp_write_array_len(vec.len() as u32);
    let mut i: usize = 0;
    proof {
        assert(vec@.take(0) =~= Seq::<Box<MsgObject>>::empty());
        assert(r@ =~= array_len_bytes(vec@.len() as u32) + encoding_all(vec@.take(0)));
    }
    while i < vec.len()
        invariant
            i <= vec@.len(),
            encodable_all(vec@),
            r@ == array_len_bytes(vec@.len() as u32) + encoding_all(vec@.take(i as int)),
        decreases vec@.len() - i,
    {
        proof {
            lemma_encodable_take(vec@, i as int);
            assert(vec@.take(i + 1).drop_last() =~= vec@.take(i as int));
        }
        let mut e = encode(&vec[i]);
        r.append(&mut e);
        i = i + 1;
        proof {
            assert(r@ =~= array_len_bytes(vec@.len() as u32) + encoding_all(vec@.take(i as int)));
        }
    }
    proof {
        assert(vec@.take(i as int) =~= vec@);
    }
    r
}

/// The msgpack bytes of the object.
fn encode(object: &MsgObject) -> (r: Vec<u8>)
    requires
        encodable(*object),
    ensures
        r@ == encoding(*object),
    decreases *object, 1int,
{
    match object {
        MsgObject::Array(vec) => encode_array(vec),
        MsgObject::Bin(bin) => rmp_write_bin(bin.as_slice()),
        MsgObject::UInt(bin) => int_bytes(bin.as_slice()),
        _ => {
            proof {
                assert(false);
            }
            Vec::new()
        },
    }
}

/// Each object of a sequence whose objects can all be written can be written.
proof fn lemma_encodable_take(s: Seq<Box<MsgObject>>, i: int)
    requires
        0 <= i < s.len(),
        encodable_all(s),
    ensures
        encodable(*s[i]),
    decreases s.len(),
{
    if i + 1 < s.len() {
        lemma_encodable_take(s.drop_last(), i);
    }
}

/// Writes the object as msgpack at the start of `bytes`.
pub fn msgpack(bytes: &mut Vec<u8>, object: &MsgObject)
    requires
        encodable(*object),
        encoding(*object).len() <= old(bytes)@.len(),
    ensures
        final(bytes)@ == encoding(*object) + old(bytes)@.subrange(
            encoding(*object).len() as int,
            old(bytes)@.len() as int,
        ),
{
    let encoded = encode(object);
    let mut buf: Vec<u8> = Vec::new();
    std::mem::swap(&mut buf, bytes);
    let mut writer = Cursor::new(buf);
    writer.write_all(&encoded);
    *bytes = writer.into_inner();
    proof {
        assert(old(bytes)@.subrange(0, 0) + encoded@ =~= encoded@);
    }
}

/// The size that `msg_size` gives is the number of bytes `msgpack` writes, for every object
/// that both accept.
pub proof fn lemma_size_is_encoding_len(o: MsgObject)
    requires
        sizable(o),
        encodable(o),
    ensures
        encoding(o).len() == size_of(o),
    decreases o,
{
    match o {
        MsgObject::Array(v) => {
            lemma_size_is_encoding_len_all(v@);
        },
        _ => {},
    }
}

/// The sizes of objects add up to the number of bytes written for them.
pub proof fn lemma_size_is_encoding_len_all(s: Seq<Box<MsgObject>>)
    requires
        sizable_all(s),
        encodable_all(s),
    ensures
        encoding_all(s).len() == size_of_all(s),
    decreases s,
{
    if s.len() > 0 {
        lemma_size_is_encoding_len_all(s.drop_last());
        lemma_size_is_encoding_len(*s.last());
    }
}

} // verus!
