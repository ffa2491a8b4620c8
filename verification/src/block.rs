use vstd::prelude::*;

use vstd::slice::{slice_subrange, slice_to_vec};

use crate::bytes::{be_val, le32_val, read_u32_be, read_u32_le};
use crate::checksum::{adler32_of, check_adler32};
use crate::cipher::{fast_decrypt, fast_transform, ripemd128, ripemd128_of, salsa20_apply,
    salsa20_xor};
use crate::inflate::{lzo_decompress, lzo_inflated, zlib_decompress, zlib_inflated};
use crate::{Error, Section};

verus! {

/// What decoding one framed block yields: the first four little-endian
/// prefix bytes carry the compression method (low nibble) and the
/// encryption method (next nibble); bytes four to eight are both the
/// cipher-key source and the big-endian Adler-32 of the decompressed
/// payload. The payload is decrypted, decompressed and checksummed in that
/// order.
pub open spec fn decode_block_model(s: Seq<u8>, comp: int, dsize: int) -> Result<Seq<u8>, Error>
    recommends
        8 <= comp <= s.len(),
{
    let enc = le32_val(s.subrange(0, 4));
    let csum = be_val(s.subrange(4, 8));
    let encm = (enc / 16) % 16;
    let compm = enc % 16;
    let body = s.subrange(8, comp);
    if encm > 2 {
        Err(Error::InvalidEncryptMethod(encm as u32))
    } else {
        let decrypted = if encm == 0 {
            body
        } else if encm == 1 {
            fast_transform(body, ripemd128_of(s.subrange(4, 8)))
        } else {
            salsa20_xor(ripemd128_of(s.subrange(4, 8)), body)
        };
        if compm > 2 {
            Err(Error::InvalidCompressMethod(compm as u32))
        } else {
            let plain_opt = if compm == 0 {
                Option::Some(decrypted)
            } else if compm == 1 {
                lzo_inflated(decrypted, dsize as nat)
            } else {
                zlib_inflated(decrypted)
            };
            match plain_opt {
                Option::None => Err(Error::InvalidData),
                Option::Some(p) => if adler32_of(p) == csum {
                    Ok(p)
                } else {
                    Err(Error::InvalidCheckSum(Section::Block))
                },
            }
        }
    }
}

/// Decodes one compressed block with its eight-byte prefix: reads the
/// method word, undoes the cipher named by the encryption nibble, undoes
/// the compression named by the compression nibble, and verifies the
/// Adler-32 of the result against the prefix checksum.
pub fn decode_block(slice: &[u8], compressed_size: usize, decompressed_size: usize) -> (r: Result<
    Vec<u8>,
    Error,
>)
    requires
        8 <= compressed_size <= slice@.len(),
    ensures
        ({
            let m = decode_block_model(slice@, compressed_size as int, decompressed_size as int);
            &&& (r is Ok <==> m is Ok)
            &&& (r matches Ok(v) ==> (m matches Ok(p) && v@ == p))
            &&& (r matches Err(e) ==> (m matches Err(me) && e == me))
        }),
        r matches Ok(v) ==> adler32_of(v@) == be_val(slice@.subrange(4, 8)),
{
    let enc = read_u32_le(slice, 0);
    let checksum = read_u32_be(slice, 4);
    let encryption_method: u32 = (enc / 16) % 16;
    let compress_method: u32 = enc % 16;
    let encrypted = slice_subrange(slice, 8, compressed_size);
    let key_src = slice_subrange(slice, 4, 8);
    let compressed: Vec<u8> = if encryption_method == 0 {
        slice_to_vec(encrypted)
    } else if encryption_method == 1 {
        let key = ripemd128(key_src);
        fast_decrypt(encrypted, key.as_slice())
    } else if encryption_method == 2 {
        let key = ripemd128(key_src);
        salsa20_apply(key.as_slice(), encrypted)
    } else {
        return Err(Error::InvalidEncryptMethod(encryption_method));
    };
    let decompressed: Vec<u8> = if compress_method == 0 {
        compressed
    } else if compress_method == 1 {
        match lzo_decompress(compressed.as_slice(), decompressed_size) {
            Some(v) => v,
            None => {
                return Err(Error::InvalidData);
            },
        }
    } else if compress_method == 2 {
        match zlib_decompress(compressed.as_slice()) {
            Some(v) => v,
            None => {
                return Err(Error::InvalidData);
            },
        }
    } else {
        return Err(Error::InvalidCompressMethod(compress_method));
    };
    match check_adler32(decompressed.as_slice(), checksum, Section::Block) {
        Ok(_) => (),
        Err(e) => {
            return Err(e);
        },
    }
    Ok(decompressed)
}

} // verus!
