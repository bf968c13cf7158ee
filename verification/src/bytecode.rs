//! The byte image of a linked program: a data segment followed by a code segment,
//! little-endian throughout, eight bytes per instruction.

#![allow(non_camel_case_types)]

use vstd::prelude::*;

verus! {

/// The four little-endian bytes of `v`.
pub open spec fn le_bytes_u32(v: u32) -> Seq<u8> {
    seq![
        (v % 256) as u8,
        (v / 256 % 256) as u8,
        (v / 65536 % 256) as u8,
        (v / 16777216 % 256) as u8,
    ]
}

/// The eight little-endian bytes of `v`.
pub open spec fn le_bytes_u64(v: u64) -> Seq<u8> {
    seq![
        (v % 256) as u8,
        (v / 0x100 % 256) as u8,
        (v / 0x1_0000 % 256) as u8,
        (v / 0x100_0000 % 256) as u8,
        (v / 0x1_0000_0000 % 256) as u8,
        (v / 0x100_0000_0000 % 256) as u8,
        (v / 0x1_0000_0000_0000 % 256) as u8,
        (v / 0x100_0000_0000_0000 % 256) as u8,
    ]
}

/// The two's-complement bit pattern of `i`, read as an unsigned number.
pub open spec fn twos_complement(i: i32) -> u32 {
    if i >= 0 {
        i as u32
    } else {
        (i + 0x1_0000_0000) as u32
    }
}

/// `n` rounded up to the next multiple of eight.
pub open spec fn aligned_len(n: nat) -> nat {
    if n % 8 == 0 {
        n
    } else {
        (n + (8 - n % 8)) as nat
    }
}

/// `n` zero bytes.
pub open spec fn zeros(n: nat) -> Seq<u8> {
    Seq::new(n, |i: int| 0u8)
}

/// The data segment of an image: the padded payload length as eight bytes, the
/// payload, and zeros up to a multiple of eight. The length field does not count
/// itself.
pub open spec fn data_segment(data: Seq<u8>) -> Seq<u8> {
    le_bytes_u64(aligned_len(data.len()) as u64) + data + zeros(
        (aligned_len(data.len()) - data.len()) as nat,
    )
}

/// The code segment of an image: the encoded instructions, one after the other.
pub open spec fn code_segment(code: Seq<Op>) -> Seq<u8>
    decreases code.len(),
{
    if code.len() == 0 {
        Seq::empty()
    } else {
        code_segment(code.drop_last()) + code.last().bytes()
    }
}

/// The whole image: data segment, then code segment, with nothing between or
/// after them.
pub open spec fn image(data: Seq<u8>, code: Seq<Op>) -> Seq<u8> {
    data_segment(data) + code_segment(code)
}

fn encode_u32(v: u32) -> (bytes: Vec<u8>)
    ensures
        bytes@ == le_bytes_u32(v),
{
    let mut bytes: Vec<u8> = Vec::new();
    bytes.push((v % 256) as u8);
    bytes.push((v / 256 % 256) as u8);
    bytes.push((v / 65536 % 256) as u8);
    bytes.push((v / 16777216 % 256) as u8);
    assert(bytes@ =~= le_bytes_u32(v));
    bytes
}

fn encode_u64(v: u64) -> (bytes: Vec<u8>)
    ensures
        bytes@ == le_bytes_u64(v),
{
    let mut bytes: Vec<u8> = Vec::new();
    bytes.push((v % 256) as u8);
    bytes.push((v / 0x100 % 256) as u8);
    bytes.push((v / 0x1_0000 % 256) as u8);
    bytes.push((v / 0x100_0000 % 256) as u8);
    bytes.push((v / 0x1_0000_0000 % 256) as u8);
    bytes.push((v / 0x100_0000_0000 % 256) as u8);
    bytes.push((v / 0x1_0000_0000_0000 % 256) as u8);
    bytes.push((v / 0x100_0000_0000_0000 % 256) as u8);
    assert(bytes@ =~= le_bytes_u64(v));
    bytes
}

fn unsigned_pattern(i: i32) -> (u: u32)
    ensures
        u == twos_complement(i),
{
    if i >= 0 {
        i as u32
    } else {
        (i as i64 + 0x1_0000_0000) as u32
    }
}

/// The tag that opens each encoded instruction.
pub enum Opcode {
    NOP,
    PUSH_UNIT,
    PUSH_BOOL,
    PUSH_U8,
    PUSH_I32,
    PUSH_FN,
    PUSH_CMD,
    PUSH_ARG,
    DROP,
    FEED,
    BRANCH,
    RETURN,
}

impl Opcode {
    /// The tag's number: the tags count up from zero in the order of declaration.
    pub open spec fn number(self) -> u32 {
        match self {
            Opcode::NOP => 0,
            Opcode::PUSH_UNIT => 1,
            Opcode::PUSH_BOOL => 2,
            Opcode::PUSH_U8 => 3,
            Opcode::PUSH_I32 => 4,
            Opcode::PUSH_FN => 5,
            Opcode::PUSH_CMD => 6,
            Opcode::PUSH_ARG => 7,
            Opcode::DROP => 8,
            Opcode::FEED => 9,
            Opcode::BRANCH => 10,
            Opcode::RETURN => 11,
        }
    }

    fn to_number(self) -> (n: u32)
        ensures
            n == self.number(),
    {
        match self {
            Opcode::NOP => 0,
            Opcode::PUSH_UNIT => 1,
            Opcode::PUSH_BOOL => 2,
            Opcode::PUSH_U8 => 3,
            Opcode::PUSH_I32 => 4,
            Opcode::PUSH_FN => 5,
            Opcode::PUSH_CMD => 6,
            Opcode::PUSH_ARG => 7,
            Opcode::DROP => 8,
            Opcode::FEED => 9,
            Opcode::BRANCH => 10,
            Opcode::RETURN => 11,
        }
    }

    /// The tag as its four little-endian bytes.
    pub fn as_vec(self) -> (bytes: Vec<u8>)
        ensures
            bytes@ == le_bytes_u32(self.number()),
    {
        encode_u32(self.to_number())
    }
}

/// An instruction of the stack machine with numeric operands.
#[derive(Clone, Copy, Debug, PartialEq, Eq)]
pub enum Op {
    /// Do nothing.
    NOP,
    /// The number of arguments that the enclosing definition takes.
    ARGC(u32),
    /// Push unit.
    PUSH_UNIT,
    /// Push a boolean.
    PUSH_BOOL(bool),
    /// Push a byte.
    PUSH_U8(u8),
    /// Push a signed 32-bit integer.
    PUSH_I32(i32),
    /// Push a standard-library function, by its index.
    PUSH_FN(u32),
    /// Push a user definition, by its offset in the code segment.
    PUSH_CMD(u32),
    /// Push an argument of the enclosing definition, by its position.
    PUSH_ARG(u32),
    /// Pop that many values.
    DROP(u32),
    /// Apply the function beneath the topmost values to that many of them.
    FEED(u32),
    /// Select one of two arms by a condition on the stack.
    BRANCH,
    /// Leave the current routine.
    RETURN,
}

impl Op {
    /// The tag under which the instruction is encoded. `ARGC` has no tag of its
    /// own: it goes out under that of `NOP`, and is told apart by its payload.
    pub open spec fn opcode(self) -> Opcode {
        match self {
            Op::NOP => Opcode::NOP,
            Op::ARGC(_) => Opcode::NOP,
            Op::PUSH_UNIT => Opcode::PUSH_UNIT,
            Op::PUSH_BOOL(_) => Opcode::PUSH_BOOL,
            Op::PUSH_U8(_) => Opcode::PUSH_U8,
            Op::PUSH_I32(_) => Opcode::PUSH_I32,
            Op::PUSH_FN(_) => Opcode::PUSH_FN,
            Op::PUSH_CMD(_) => Opcode::PUSH_CMD,
            Op::PUSH_ARG(_) => Opcode::PUSH_ARG,
            Op::DROP(_) => Opcode::DROP,
            Op::FEED(_) => Opcode::FEED,
            Op::BRANCH => Opcode::BRANCH,
            Op::RETURN => Opcode::RETURN,
        }
    }

    /// The four payload bytes that follow the tag.
    pub open spec fn payload(self) -> Seq<u8> {
        match self {
            Op::NOP => le_bytes_u32(0),
            Op::ARGC(argc) => le_bytes_u32(argc),
            Op::PUSH_UNIT => le_bytes_u32(0),
            Op::PUSH_BOOL(b) => seq![if b { 1u8 } else { 0u8 }, 0u8, 0u8, 0u8],
            Op::PUSH_U8(u) => seq![u, 0u8, 0u8, 0u8],
            Op::PUSH_I32(i) => le_bytes_u32(twos_complement(i)),
            Op::PUSH_FN(addr) => le_bytes_u32(addr),
            Op::PUSH_CMD(addr) => le_bytes_u32(addr),
            Op::PUSH_ARG(index) => le_bytes_u32(index),
            Op::DROP(n) => le_bytes_u32(n),
            Op::FEED(argc) => le_bytes_u32(argc),
            Op::BRANCH => le_bytes_u32(0),
            Op::RETURN => le_bytes_u32(0),
        }
    }

    /// The eight bytes of the encoded instruction: tag, then payload.
    pub open spec fn bytes(self) -> Seq<u8> {
        le_bytes_u32(self.opcode().number()) + self.payload()
    }

    /// Encodes the instruction.
    pub fn as_vec(&self) -> (bytes: Vec<u8>)
        ensures
            bytes@ == self.bytes(),
            bytes@.len() == 8,
    {
        match self {
            Op::NOP => Self::just(Opcode::NOP),
            Op::ARGC(argc) => Self::join(Opcode::NOP, encode_u32(*argc).as_slice()),
            Op::PUSH_UNIT => Self::just(Opcode::PUSH_UNIT),
            Op::PUSH_BOOL(b) => {
                let flag: u8 = if *b { 1 } else { 0 };
                Self::join(Opcode::PUSH_BOOL, Self::low_byte(flag).as_slice())
            },
            Op::PUSH_U8(u) => Self::join(Opcode::PUSH_U8, Self::low_byte(*u).as_slice()),
            Op::PUSH_I32(i) => Self::join(Opcode::PUSH_I32, encode_u32(unsigned_pattern(*i)).as_slice()),
            Op::PUSH_FN(addr) => Self::join(Opcode::PUSH_FN, encode_u32(*addr).as_slice()),
            Op::PUSH_CMD(addr) => Self::join(Opcode::PUSH_CMD, encode_u32(*addr).as_slice()),
            Op::PUSH_ARG(index) => Self::join(Opcode::PUSH_ARG, encode_u32(*index).as_slice()),
            Op::DROP(n) => Self::join(Opcode::DROP, encode_u32(*n).as_slice()),
            Op::FEED(argc) => Self::join(Opcode::FEED, encode_u32(*argc).as_slice()),
            Op::BRANCH => Self::just(Opcode::BRANCH),
            Op::RETURN => Self::just(Opcode::RETURN),
        }
    }

    fn low_byte(b: u8) -> (bytes: Vec<u8>)
        ensures
            bytes@ == seq![b, 0u8, 0u8, 0u8],
    {
        let mut bytes: Vec<u8> = Vec::new();
        bytes.push(b);
        bytes.push(0);
        bytes.push(0);
        bytes.push(0);
        assert(bytes@ =~= seq![b, 0u8, 0u8, 0u8]);
        bytes
    }

    /// A tag with an all-zero payload.
    pub fn just(opcode: Opcode) -> (bytes: Vec<u8>)
        ensures
            bytes@ == le_bytes_u32(opcode.number()) + le_bytes_u32(0),
    {
        Self::join(opcode, encode_u32(0).as_slice())
    }

    /// A tag followed by the given payload.
    pub fn join(opcode: Opcode, slice: &[u8]) -> (bytes: Vec<u8>)
        ensures
            bytes@ == le_bytes_u32(opcode.number()) + slice@,
    {
        let mut bytes = opcode.as_vec();
        let mut i: usize = 0;
        while i < slice.len()
            invariant
                i <= slice.len(),
                bytes@ == le_bytes_u32(opcode.number()) + slice@.take(i as int),
            decreases slice.len() - i,
        {
            bytes.push(slice[i]);
            proof {
                assert(slice@.take(i + 1) =~= slice@.take(i as int).push(slice@[i as int]));
            }
            i += 1;
        }
        proof {
            assert(slice@.take(i as int) =~= slice@);
        }
        bytes
    }
}

/// A linked program, ready to be written out: the payload of its data segment
/// and its instructions.
pub struct Program {
    data: Vec<u8>,
    code: Vec<Op>,
}

impl Program {
    /// The payload of the data segment, before padding.
    pub closed spec fn data(&self) -> Seq<u8> {
        self.data@
    }

    /// The instructions.
    pub closed spec fn code(&self) -> Seq<Op> {
        self.code@
    }

    /// Whether the image's length fits the machine's word.
    pub open spec fn fits(&self) -> bool {
        8 + aligned_len(self.data().len()) + 8 * self.code().len() <= usize::MAX
    }

    /// Tests whether the image's length fits the machine's word.
    pub fn encodable(&self) -> (b: bool)
        ensures
            b == self.fits(),
    {
        let n = self.data.len();
        if n > usize::MAX - 15 {
            return false;
        }
        let padded = if n % 8 == 0 {
            n
        } else {
            n + (8 - n % 8)
        };
        let room = usize::MAX - 8 - padded;
        self.code.len() <= room / 8
    }

    /// A program with an empty data segment.
    pub fn new(code: Vec<Op>) -> (program: Self)
        ensures
            program.data() == Seq::<u8>::empty(),
            program.code() == code@,
    {
        Self::from(Vec::new(), code)
    }

    /// A program of the given data payload and instructions.
    pub fn from(data: Vec<u8>, code: Vec<Op>) -> (program: Self)
        ensures
            program.data() == data@,
            program.code() == code@,
    {
        Self { data, code }
    }

    /// The image: the data segment, then every instruction in order.
    pub fn as_vec(&self) -> (bytes: Vec<u8>)
        requires
            self.fits(),
        ensures
            bytes@ == image(self.data(), self.code()),
            bytes@.len() == 8 + aligned_len(self.data().len()) + 8 * self.code().len(),
    {
        let mut v = self.data_vec();
        let mut i: usize = 0;
        while i < self.code.len()
            invariant
                i <= self.code.len(),
                self.fits(),
                v@ == data_segment(self.data@) + code_segment(self.code@.take(i as int)),
                v@.len() == 8 + aligned_len(self.data@.len()) + 8 * i,
            decreases self.code.len() - i,
        {
            let mut encoded = self.code[i].as_vec();
            v.append(&mut encoded);
            proof {
                let next = self.code@.take(i + 1);
                assert(next.drop_last() =~= self.code@.take(i as int));
                assert(next.last() == self.code@[i as int]);
            }
            i += 1;
        }
        proof {
            assert(self.code@.take(i as int) =~= self.code@);
        }
        v
    }

    /// The data segment, aligned to 64 bits.
    pub fn data_vec(&self) -> (bytes: Vec<u8>)
        requires
            8 + aligned_len(self.data().len()) <= usize::MAX,
        ensures
            bytes@ == data_segment(self.data()),
            bytes@.len() == 8 + aligned_len(self.data().len()),
    {
        let length = self.aligned_data_length();
        let padding = length - self.data.len();
        let mut v = encode_u64(length as u64);
        let mut i: usize = 0;
        while i < self.data.len()
            invariant
                i <= self.data.len(),
                v@ == le_bytes_u64(length as u64) + self.data@.take(i as int),
            decreases self.data.len() - i,
        {
            v.push(self.data[i]);
            proof {
                assert(self.data@.take(i + 1) =~= self.data@.take(i as int).push(
                    self.data@[i as int],
                ));
            }
            i += 1;
        }
        proof {
            assert(self.data@.take(i as int) =~= self.data@);
        }
        let mut k: usize = 0;
        while k < padding
            invariant
                k <= padding,
                v@ == le_bytes_u64(length as u64) + self.data@ + zeros(k as nat),
            decreases padding - k,
        {
            v.push(0);
            proof {
                assert(zeros((k + 1) as nat) =~= zeros(k as nat).push(0u8));
            }
            k += 1;
        }
        v
    }

    /// The length of the data payload once padded to a multiple of eight.
    pub fn aligned_data_length(&self) -> (length: usize)
        requires
            aligned_len(self.data().len()) <= usize::MAX,
        ensures
            length == aligned_len(self.data().len()),
            length % 8 == 0,
            self.data().len() <= length < self.data().len() + 8,
    {
        let n = self.data.len();
        let bits = n % 8;
        if bits == 0 {
            n
        } else {
            n + (8 - bits)
        }
    }
}

/// Every instruction takes eight bytes.
pub proof fn lemma_op_bytes_len(op: Op)
    ensures
        op.bytes().len() == 8,
{
}

/// The code segment is eight bytes for each instruction, so its length is a
/// multiple of eight.
pub proof fn lemma_code_segment_len(code: Seq<Op>)
    ensures
        code_segment(code).len() == 8 * code.len(),
        code_segment(code).len() % 8 == 0,
    decreases code.len(),
{
    if code.len() > 0 {
        lemma_code_segment_len(code.drop_last());
        lemma_op_bytes_len(code.last());
    }
}

/// The instruction at `i` stands in the code segment at the byte offset `8 * i`.
pub proof fn lemma_code_segment_at(code: Seq<Op>, i: int)
    requires
        0 <= i < code.len(),
    ensures
        8 * i + 8 <= code_segment(code).len(),
        code_segment(code).subrange(8 * i, 8 * i + 8) == code[i].bytes(),
    decreases code.len(),
{
    let shorter = code.drop_last();
    lemma_code_segment_len(code);
    lemma_code_segment_len(shorter);
    lemma_op_bytes_len(code.last());
    if i < code.len() - 1 {
        lemma_code_segment_at(shorter, i);
        assert(shorter[i] == code[i]);
        assert(code_segment(code).subrange(8 * i, 8 * i + 8) =~= code_segment(shorter).subrange(
            8 * i,
            8 * i + 8,
        ));
    } else {
        assert(code_segment(code).subrange(8 * i, 8 * i + 8) =~= code.last().bytes());
    }
}

/// The data segment is its eight-byte header and a payload whose padded length
/// is a multiple of eight, and the header holds that length.
pub proof fn lemma_data_segment_len(data: Seq<u8>)
    ensures
        data_segment(data).len() == 8 + aligned_len(data.len()),
        aligned_len(data.len()) % 8 == 0,
        data.len() <= aligned_len(data.len()) < data.len() + 8,
        data_segment(data).subrange(0, 8) == le_bytes_u64(aligned_len(data.len()) as u64),
{
    assert(data_segment(data).subrange(0, 8) =~= le_bytes_u64(aligned_len(data.len()) as u64));
}

/// An image is its data segment followed by a code segment of eight bytes for
/// each instruction.
pub proof fn lemma_image_len(data: Seq<u8>, code: Seq<Op>)
    ensures
        image(data, code).len() == 8 + aligned_len(data.len()) + 8 * code.len(),
        (image(data, code).len() - data_segment(data).len()) % 8 == 0,
{
    lemma_data_segment_len(data);
    lemma_code_segment_len(code);
}

/// `ARGC` goes out under the tag of `NOP`, and its payload is all zero exactly
/// when the arity is zero.
pub proof fn lemma_argc_bytes(argc: u32)
    ensures
        Op::ARGC(argc).bytes() == le_bytes_u32(Opcode::NOP.number()) + le_bytes_u32(argc),
        Opcode::NOP.number() == 0,
        le_bytes_u32(argc) == le_bytes_u32(0) <==> argc == 0,
{
    if le_bytes_u32(argc) == le_bytes_u32(0) {
        assert(le_bytes_u32(argc)[0] == 0);
        assert(le_bytes_u32(argc)[1] == 0);
        assert(le_bytes_u32(argc)[2] == 0);
        assert(le_bytes_u32(argc)[3] == 0);
    }
}

} // verus!
