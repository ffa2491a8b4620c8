use vstd::prelude::*;

use crate::{Error, Version};

verus! {

/// Value of a byte sequence read as one big-endian unsigned integer.
pub open spec fn be_val(s: Seq<u8>) -> int
    decreases s.len(),
{
    if s.len() == 0 {
        0
    } else {
        be_val(s.drop_last()) * 256 + s.last()
    }
}

/// Value of a four-byte sequence read as a little-endian unsigned integer.
pub open spec fn le32_val(s: Seq<u8>) -> int
    recommends
        s.len() == 4,
{
    s[0] + s[1] * 0x100 + s[2] * 0x10000 + s[3] * 0x1000000
}

/// Width in bytes of the integers a given format version stores.
pub open spec fn num_width(v: Version) -> int {
    match v {
        Version::V1 => 4,
        Version::V2 => 8,
    }
}

pub proof fn lemma_be_val_nonneg(s: Seq<u8>)
    ensures
        be_val(s) >= 0,
    decreases s.len(),
{
    if s.len() > 0 {
        lemma_be_val_nonneg(s.drop_last());
    }
}

proof fn lemma_be_val2(s: Seq<u8>)
    requires
        s.len() == 2,
    ensures
        be_val(s) == s[0] * 0x100 + s[1],
        0 <= be_val(s) <= 0xffff,
{
    reveal_with_fuel(be_val, 3);
    let s1 = s.drop_last();
    assert(s1.last() == s[0]);
    assert(s1.drop_last().len() == 0);
}

proof fn lemma_be_val4(s: Seq<u8>)
    requires
        s.len() == 4,
    ensures
        be_val(s) == s[0] * 0x1000000 + s[1] * 0x10000 + s[2] * 0x100 + s[3],
        0 <= be_val(s) <= 0xffff_ffff,
{
    reveal_with_fuel(be_val, 2);
    let s3 = s.drop_last();
    lemma_be_val2(s3.drop_last());
    assert(s3.last() == s[2]);
    assert(s3.drop_last()[0] == s[0] && s3.drop_last()[1] == s[1]);
    assert(be_val(s3) == be_val(s3.drop_last()) * 256 + s[2]);
}

proof fn lemma_be_val8(s: Seq<u8>)
    requires
        s.len() == 8,
    ensures
        be_val(s) == ((((((s[0] * 0x100 + s[1]) * 0x100 + s[2]) * 0x100 + s[3]) * 0x100 + s[4])
            * 0x100 + s[5]) * 0x100 + s[6]) * 0x100 + s[7],
        0 <= be_val(s) <= 0xffff_ffff_ffff_ffff,
{
    reveal_with_fuel(be_val, 2);
    let s7 = s.drop_last();
    let s6 = s7.drop_last();
    let s5 = s6.drop_last();
    lemma_be_val4(s5.drop_last());
    assert(s5.last() == s[4] && s6.last() == s[5] && s7.last() == s[6]);
    assert(s5.drop_last()[0] == s[0] && s5.drop_last()[1] == s[1] && s5.drop_last()[2] == s[2]
        && s5.drop_last()[3] == s[3]);
    assert(be_val(s5) == be_val(s5.drop_last()) * 256 + s[4]);
    assert(be_val(s6) == be_val(s5) * 256 + s[5]);
    assert(be_val(s7) == be_val(s6) * 256 + s[6]);
}

/// Reads a big-endian u16 at `pos`.
pub fn read_u16_be(data: &[u8], pos: usize) -> (r: u16)
    requires
        pos + 2 <= data.len(),
    ensures
        r == be_val(data@.subrange(pos as int, pos + 2)),
{
    let b0 = data[pos];
    let b1 = data[pos + 1];
    let r: u16 = (b0 as u16) * 0x100 + (b1 as u16);
    proof {
        let s = data@.subrange(pos as int, pos + 2);
        lemma_be_val2(s);
    }
    r
}

/// Reads a big-endian u32 at `pos`.
pub fn read_u32_be(data: &[u8], pos: usize) -> (r: u32)
    requires
        pos + 4 <= data.len(),
    ensures
        r == be_val(data@.subrange(pos as int, pos + 4)),
{
    let b0 = data[pos] as u32;
    let b1 = data[pos + 1] as u32;
    let b2 = data[pos + 2] as u32;
    let b3 = data[pos + 3] as u32;
    let r: u32 = b0 * 0x1000000 + b1 * 0x10000 + b2 * 0x100 + b3;
    proof {
        let s = data@.subrange(pos as int, pos + 4);
        lemma_be_val4(s);
    }
    r
}

/// Reads a big-endian u64 at `pos`.
pub fn read_u64_be(data: &[u8], pos: usize) -> (r: u64)
    requires
        pos + 8 <= data.len(),
    ensures
        r == be_val(data@.subrange(pos as int, pos + 8)),
{
    let mut r: u64 = 0;
    r = r * 0x100 + (data[pos] as u64);
    r = r * 0x100 + (data[pos + 1] as u64);
    r = r * 0x100 + (data[pos + 2] as u64);
    r = r * 0x100 + (data[pos + 3] as u64);
    r = r * 0x100 + (data[pos + 4] as u64);
    r = r * 0x100 + (data[pos + 5] as u64);
    r = r * 0x100 + (data[pos + 6] as u64);
    r = r * 0x100 + (data[pos + 7] as u64);
    proof {
        let s = data@.subrange(pos as int, pos + 8);
        lemma_be_val8(s);
    }
    r
}

/// Reads a little-endian u32 at `pos`.
pub fn read_u32_le(data: &[u8], pos: usize) -> (r: u32)
    requires
        pos + 4 <= data.len(),
    ensures
        r == le32_val(data@.subrange(pos as int, pos + 4)),
{
    let b0 = data[pos] as u32;
    let b1 = data[pos + 1] as u32;
    let b2 = data[pos + 2] as u32;
    let b3 = data[pos + 3] as u32;
    b0 + b1 * 0x100 + b2 * 0x10000 + b3 * 0x1000000
}

/// Copies `len` bytes out of `data` starting at the cursor `*pos` and
/// advances the cursor; a read past the end of `data` is refused.
pub fn read_buf(data: &[u8], pos: &mut usize, len: usize) -> (r: Result<Vec<u8>, Error>)
    ensures
        r is Ok <==> *old(pos) + len <= data.len(),
        r matches Ok(v) ==> {
            &&& v@ == data@.subrange(*old(pos) as int, *old(pos) + len)
            &&& *final(pos) == *old(pos) + len
        },
        r is Err ==> *final(pos) == *old(pos) && (r matches Err(e) && e is InvalidData),
{
    if len > data.len() || *pos > data.len() - len {
        return Err(Error::InvalidData);
    }
    let start: usize = *pos;
    let mut v: Vec<u8> = Vec::new();
    let mut i: usize = 0;
    while i < len
        invariant
            start + len <= data.len(),
            i <= len,
            v@ == data@.subrange(start as int, start + i),
        decreases len - i,
    {
        v.push(data[start + i]);
        proof {
            assert(v@ =~= data@.subrange(start as int, start + i + 1));
        }
        i = i + 1;
    }
    *pos = start + len;
    Ok(v)
}

impl Version {
    /// Reads one version-sized big-endian count at the cursor; the count must
    /// also fit in `usize` so that it can serve as a buffer length.
    pub fn read_number(&self, data: &[u8], pos: &mut usize) -> (r: Result<usize, Error>)
        ensures
            r is Ok <==> *old(pos) + num_width(*self) <= data.len() && be_val(
                data@.subrange(*old(pos) as int, *old(pos) + num_width(*self)),
            ) <= usize::MAX,
            r matches Ok(n) ==> {
                &&& n == be_val(data@.subrange(*old(pos) as int, *old(pos) + num_width(*self)))
                &&& *final(pos) == *old(pos) + num_width(*self)
            },
            r is Err ==> *final(pos) == *old(pos) && (r matches Err(e) && e is InvalidData),
    {
        match self {
            Version::V1 => {
                if data.len() < 4 || *pos > data.len() - 4 {
                    return Err(Error::InvalidData);
                }
                let n = read_u32_be(data, *pos);
                proof {
                    lemma_be_val4(data@.subrange(*pos as int, *pos + 4));
                }
                *pos = *pos + 4;
                Ok(n as usize)
            },
            Version::V2 => {
                if data.len() < 8 || *pos > data.len() - 8 {
                    return Err(Error::InvalidData);
                }
                let n = read_u64_be(data, *pos);
                proof {
                    lemma_be_val8(data@.subrange(*pos as int, *pos + 8));
                }
                if n > usize::MAX as u64 {
                    return Err(Error::InvalidData);
                }
                *pos = *pos + 8;
                Ok(n as usize)
            },
        }
    }
}

} // verus!
