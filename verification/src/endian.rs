//! Little-endian 32-bit words: the format of compiled programs on disk.
use vstd::prelude::*;

verus! {

/// Why a word could not be read.
#[derive(Debug, PartialEq, Eq, Structural)]
pub enum EndianError {
    /// Fewer than four bytes.
    ShortSlice,
}

pub type EndianResult<T> = Result<T, EndianError>;

impl EndianError {
    /// The text that describes the error.
    pub fn message(&self) -> (s: String)
        ensures
            s@ == "The slice length is too short."@,
    {
        match self {
            EndianError::ShortSlice => String::from_str("The slice length is too short."),
        }
    }
}

/// The unsigned number whose little-endian bytes are `b0 b1 b2 b3`.
pub open spec fn le_u32(b0: u8, b1: u8, b2: u8, b3: u8) -> nat {
    (b0 + 0x100 * b1 + 0x1_0000 * b2 + 0x100_0000 * b3) as nat
}

/// The 32-bit two's-complement reading of `u < 2^32`.
pub open spec fn as_i32(u: nat) -> int {
    if u < 0x8000_0000 {
        u as int
    } else {
        u - 0x1_0000_0000
    }
}

/// The unsigned word held in the first four bytes of `data`.
fn read_u32_inner(data: &[u8]) -> (r: EndianResult<u32>)
    ensures
        data@.len() < 4 ==> r == Err::<u32, EndianError>(EndianError::ShortSlice),
        data@.len() >= 4 ==> r == Ok::<u32, EndianError>(
            le_u32(data@[0], data@[1], data@[2], data@[3]) as u32,
        ),
{
    if data.len() < 4 {
        Err(EndianError::ShortSlice)
    } else {
        Ok((data[3] as u32) * 0x100_0000 + (data[2] as u32) * 0x1_0000 + (data[1] as u32) * 0x100
            + (data[0] as u32))
    }
}

/// The signed word held, little-endian, in the first four bytes of `data`.
pub fn read_i32(data: &[u8]) -> (r: EndianResult<i32>)
    ensures
        data@.len() < 4 ==> r == Err::<i32, EndianError>(EndianError::ShortSlice),
        data@.len() >= 4 ==> r == Ok::<i32, EndianError>(
            as_i32(le_u32(data@[0], data@[1], data@[2], data@[3])) as i32,
        ),
{
    match read_u32_inner(data) {
        Err(e) => Err(e),
        Ok(u) => {
            assert((u as i32) as int == (if u < 0x8000_0000u32 {
                u as int
            } else {
                u - 0x1_0000_0000
            })) by (bit_vector);
            Ok(u as i32)
        },
    }
}

/// Writes `data` into the first four bytes of `buf`, least significant byte first.
pub fn write_u32(buf: &mut [u8], data: u32)
    requires
        old(buf)@.len() >= 4,
    ensures
        final(buf)@.len() == old(buf)@.len(),
        final(buf)@[0] == data % 0x100,
        final(buf)@[1] == (data / 0x100) % 0x100,
        final(buf)@[2] == (data / 0x1_0000) % 0x100,
        final(buf)@[3] == data / 0x100_0000,
        forall|i: int| 4 <= i < old(buf)@.len() ==> final(buf)@[i] == old(buf)@[i],
{
    buf[0] = (data % 0x100) as u8;
    buf[1] = ((data / 0x100) % 0x100) as u8;
    buf[2] = ((data / 0x1_0000) % 0x100) as u8;
    buf[3] = (data / 0x100_0000) as u8;
}

/// Reading back the bytes that `write_u32` wrote gives the word, as a signed number.
pub proof fn lemma_write_then_read(data: u32, buf: Seq<u8>)
    requires
        buf.len() >= 4,
        buf[0] == data % 0x100,
        buf[1] == (data / 0x100) % 0x100,
        buf[2] == (data / 0x1_0000) % 0x100,
        buf[3] == data / 0x100_0000,
    ensures
        le_u32(buf[0], buf[1], buf[2], buf[3]) == data,
        as_i32(le_u32(buf[0], buf[1], buf[2], buf[3])) as i32 == data as i32,
{
    let (b0, b1, b2, b3) = (buf[0], buf[1], buf[2], buf[3]);
    assert(b0 + 0x100 * b1 + 0x1_0000 * b2 + 0x100_0000 * b3 == data) by (nonlinear_arith)
        requires
            b0 == data % 0x100,
            b1 == (data / 0x100) % 0x100,
            b2 == (data / 0x1_0000) % 0x100,
            b3 == data / 0x100_0000,
    ;
    assert((data as i32) as int == (if data < 0x8000_0000u32 {
        data as int
    } else {
        data - 0x1_0000_0000
    })) by (bit_vector);
}

} // verus!
