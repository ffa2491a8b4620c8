use vstd::prelude::*;

use ripemd::{Digest, Ripemd128};
use salsa20::Salsa20;
use salsa20::cipher::{KeyIvInit, StreamCipher};

verus! {

/// Swaps the two nibbles of a byte.
pub open spec fn swap_nibbles(b: u8) -> u8 {
    (b >> 4) | (b << 4)
}

/// One output byte of the fast cipher's decrypting direction: the previous
/// byte fed into the XOR chain is taken from the input itself.
pub open spec fn fast_byte(data: Seq<u8>, key: Seq<u8>, i: int) -> u8
    recommends
        0 <= i < data.len(),
        key.len() > 0,
{
    let prev: u8 = if i == 0 {
        0x36
    } else {
        data[i - 1]
    };
    swap_nibbles(data[i]) ^ prev ^ ((i % 256) as u8) ^ key[i % (key.len() as int)]
}

/// The fast cipher's decrypting direction over a whole buffer.
pub open spec fn fast_transform(data: Seq<u8>, key: Seq<u8>) -> Seq<u8>
    recommends
        key.len() > 0,
{
    Seq::new(data.len(), |i: int| fast_byte(data, key, i))
}

/// The fast cipher's encrypting direction: the previous byte fed into the
/// XOR chain is taken from the output produced so far.
pub open spec fn fast_enc(data: Seq<u8>, key: Seq<u8>) -> Seq<u8>
    recommends
        key.len() > 0,
    decreases data.len(),
{
    if data.len() == 0 {
        Seq::empty()
    } else {
        let front = fast_enc(data.drop_last(), key);
        let i = data.len() - 1;
        let prev: u8 = if i == 0 {
            0x36
        } else {
            front[i - 1]
        };
        front.push(swap_nibbles(data[i] ^ prev ^ ((i % 256) as u8) ^ key[i % (key.len() as int)]))
    }
}

/// Applies the proprietary byte-permutation cipher in its decrypting
/// direction: nibble swap, then XOR with the previous input byte (0x36 at
/// the start), the byte index, and the repeating key.
pub fn fast_decrypt(encrypted: &[u8], key: &[u8]) -> (r: Vec<u8>)
    requires
        key.len() > 0,
    ensures
        r@ == fast_transform(encrypted@, key@),
{
    let mut out: Vec<u8> = Vec::new();
    let mut i: usize = 0;
    while i < encrypted.len()
        invariant
            key.len() > 0,
            i <= encrypted.len(),
            out@.len() == i,
            forall|j: int| 0 <= j < i ==> out@[j] == fast_byte(encrypted@, key@, j),
        decreases encrypted.len() - i,
    {
        let prev: u8 = if i == 0 {
            0x36
        } else {
            encrypted[i - 1]
        };
        let b = encrypted[i];
        let t: u8 = ((b >> 4) | (b << 4)) ^ prev ^ ((i % 256) as u8) ^ key[i % key.len()];
        out.push(t);
        i = i + 1;
    }
    proof {
        assert(out@ =~= fast_transform(encrypted@, key@));
    }
    out
}

/// Applies the fast cipher in its encrypting direction, the exact inverse
/// of `fast_decrypt`.
pub fn fast_encrypt(plain: &[u8], key: &[u8]) -> (r: Vec<u8>)
    requires
        key.len() > 0,
    ensures
        r@ == fast_enc(plain@, key@),
{
    let mut out: Vec<u8> = Vec::new();
    let mut i: usize = 0;
    while i < plain.len()
        invariant
            key.len() > 0,
            i <= plain.len(),
            out@ == fast_enc(plain@.subrange(0, i as int), key@),
            out@.len() == i,
        decreases plain.len() - i,
    {
        proof {
            lemma_fast_enc_len(plain@.subrange(0, i as int), key@);
        }
        let prev: u8 = if i == 0 {
            0x36
        } else {
            out[i - 1]
        };
        let t: u8 = swap_nibbles_exec(plain[i] ^ prev ^ ((i % 256) as u8) ^ key[i % key.len()]);
        out.push(t);
        proof {
            let sub1 = plain@.subrange(0, i + 1);
            assert(sub1.drop_last() =~= plain@.subrange(0, i as int));
            assert(sub1.last() == plain@[i as int]);
            assert(out@ =~= fast_enc(sub1, key@));
        }
        i = i + 1;
    }
    proof {
        assert(plain@.subrange(0, plain@.len() as int) =~= plain@);
    }
    out
}

fn swap_nibbles_exec(b: u8) -> (r: u8)
    ensures
        r == swap_nibbles(b),
{
    (b >> 4) | (b << 4)
}

pub proof fn lemma_fast_enc_len(data: Seq<u8>, key: Seq<u8>)
    ensures
        fast_enc(data, key).len() == data.len(),
    decreases data.len(),
{
    if data.len() > 0 {
        lemma_fast_enc_len(data.drop_last(), key);
    }
}

/// Each byte of the encrypting direction, written with the previous
/// ciphertext byte taken from the finished output.
proof fn lemma_fast_enc_index(data: Seq<u8>, key: Seq<u8>, i: int)
    requires
        key.len() > 0,
        0 <= i < data.len(),
    ensures
        fast_enc(data, key)[i] == swap_nibbles(
            data[i] ^ (if i == 0 {
                0x36u8
            } else {
                fast_enc(data, key)[i - 1]
            }) ^ ((i % 256) as u8) ^ key[i % (key.len() as int)],
        ),
    decreases data.len(),
{
    lemma_fast_enc_len(data, key);
    lemma_fast_enc_len(data.drop_last(), key);
    if i == data.len() - 1 {
    } else {
        lemma_fast_enc_index(data.drop_last(), key, i);
    }
}

/// Cipher round trip: decrypting what the encrypting direction produced
/// gives the plaintext back, for every buffer and every nonempty key.
pub proof fn lemma_fast_cipher_round_trip(data: Seq<u8>, key: Seq<u8>)
    requires
        key.len() > 0,
    ensures
        fast_transform(fast_enc(data, key), key) == data,
{
    let y = fast_enc(data, key);
    lemma_fast_enc_len(data, key);
    assert forall|i: int| 0 <= i < data.len() implies fast_transform(y, key)[i] == data[i] by {
        lemma_fast_enc_index(data, key, i);
        let p: u8 = if i == 0 {
            0x36
        } else {
            y[i - 1]
        };
        let c: u8 = (i % 256) as u8;
        let k: u8 = key[i % (key.len() as int)];
        let a: u8 = data[i];
        assert(y[i] == swap_nibbles(a ^ p ^ c ^ k));
        let w: u8 = a ^ p ^ c ^ k;
        assert(swap_nibbles(swap_nibbles(w)) == w) by {
            lemma_swap_nibbles_involution(w);
        }
        assert(fast_byte(y, key, i) == swap_nibbles(y[i]) ^ p ^ c ^ k);
        assert(a ^ p ^ c ^ k ^ p ^ c ^ k == a) by (bit_vector);
    }
    assert(fast_transform(y, key) =~= data);
}

proof fn lemma_swap_nibbles_involution(x: u8)
    ensures
        swap_nibbles(swap_nibbles(x)) == x,
{
    assert((((x >> 4) | (x << 4)) >> 4) | (((x >> 4) | (x << 4)) << 4) == x) by (bit_vector);
}

/// Name for the RIPEMD-128 digest of a byte string.
pub uninterp spec fn ripemd128_of(data: Seq<u8>) -> Seq<u8>;

/// Relies on ripemd::Ripemd128 through the digest traits: the digest is a
/// function of the input bytes alone and is 128 bits (16 bytes) long.
#[verifier::external_body]
pub(crate) fn ripemd128(data: &[u8]) -> (r: Vec<u8>)
    ensures
        r@ == ripemd128_of(data@),
        r@.len() == 16,
{
    let mut md = Ripemd128::new();
    md.update(data);
    md.finalize().to_vec()
}

/// Name for the XOR of a byte string with the Salsa20 keystream drawn from
/// a 16-byte key and an all-zero 8-byte nonce.
pub uninterp spec fn salsa20_xor(key: Seq<u8>, data: Seq<u8>) -> Seq<u8>;

/// Relies on salsa20::Salsa20 (a 256-bit-key cipher) run with an all-zero
/// 8-byte nonce; the 16-byte derived key is repeated to fill the cipher's
/// 32-byte key. The keystream XOR depends on key and data alone and keeps
/// the buffer length.
#[verifier::external_body]
pub(crate) fn salsa20_apply(key: &[u8], data: &[u8]) -> (r: Vec<u8>)
    requires
        key@.len() == 16,
    ensures
        r@ == salsa20_xor(key@, data@),
        r@.len() == data@.len(),
{
    let mut key32 = [0u8; 32];
    key32[..16].copy_from_slice(key);
    key32[16..].copy_from_slice(key);
    let mut buf = data.to_vec();
    let mut cipher = Salsa20::new(&key32.into(), &[0u8; 8].into());
    cipher.apply_keystream(&mut buf);
    buf
}

} // verus!
