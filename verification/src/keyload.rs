use vstd::prelude::*;

use vstd::slice::{slice_subrange, slice_to_vec};
use vstd::utf8::encode_utf8;

use crate::block::{decode_block, decode_block_model};
use crate::bytes::{be_val, lemma_be_val_nonneg, num_width, read_buf, read_u16_be, read_u32_be,
    read_u64_be};
use crate::checksum::{adler32_of, check_adler32};
use crate::cipher::{fast_decrypt, fast_transform, ripemd128, ripemd128_of};
use crate::header::Header;
use crate::inflate::{zlib_decompress, zlib_inflated};
use crate::keys::{entries_sorted, sort_entries, KeyEntry, KeyMaker};
use crate::text::{chars_to_string, decode_slice_string, utf16_term_from, utf16le_decoded,
    utf8_decoded, utf8_term_from, Codec};
use crate::{BlockEntryInfo, Error, Section, Version};

verus! {

/// How many bytes a stored first or last key of the given declared length
/// spans: one terminator unit is added for a version-2 file, and UTF-16LE
/// doubles the unit.
pub open spec fn text_bytes_len(ver: Version, utf16: bool, n: int) -> int {
    let t = if ver is V2 {
        n + 1
    } else {
        n
    };
    if utf16 {
        t * 2
    } else {
        t
    }
}

/// The block-info table entries found at or after `i`: per entry an entry
/// count, the first and last key (sizes kept, texts skipped), then the
/// block's compressed and decompressed size. `None` where the table is
/// truncated or a size exceeds the machine word.
pub open spec fn info_entries_from(d: Seq<u8>, i: int, ver: Version, utf16: bool) -> Option<
    Seq<BlockEntryInfo>,
>
    decreases d.len() - i,
    via info_entries_from_dec
{
    if i >= d.len() {
        Some(Seq::empty())
    } else {
        let w = num_width(ver);
        let nw: int = if ver is V1 {
            1
        } else {
            2
        };
        let p1 = i + w;
        if d.len() < p1 + nw {
            None
        } else {
            let len1 = if ver is V1 {
                d[p1] as int
            } else {
                be_val(d.subrange(p1, p1 + nw))
            };
            let p2 = p1 + nw + text_bytes_len(ver, utf16, len1);
            if d.len() < p2 + nw {
                None
            } else {
                let len2 = if ver is V1 {
                    d[p2] as int
                } else {
                    be_val(d.subrange(p2, p2 + nw))
                };
                let p3 = p2 + nw + text_bytes_len(ver, utf16, len2);
                if d.len() < p3 + 2 * w {
                    None
                } else {
                    let cs = be_val(d.subrange(p3, p3 + w));
                    let ds = be_val(d.subrange(p3 + w, p3 + 2 * w));
                    if cs > usize::MAX || ds > usize::MAX {
                        None
                    } else {
                        match info_entries_from(d, p3 + 2 * w, ver, utf16) {
                            None => None,
                            Some(t) => Some(
                                seq![
                                    BlockEntryInfo {
                                        compressed_size: cs as usize,
                                        decompressed_size: ds as usize,
                                    },
                                ] + t,
                            ),
                        }
                    }
                }
            }
        }
    }
}

#[via_fn]
proof fn info_entries_from_dec(d: Seq<u8>, i: int, ver: Version, utf16: bool) {
    if i < d.len() {
        let w = num_width(ver);
        let nw: int = if ver is V1 {
            1
        } else {
            2
        };
        let p1 = i + w;
        if d.len() >= p1 + nw {
            if ver is V2 {
                lemma_be_val_nonneg(d.subrange(p1, p1 + nw));
            }
            let len1 = if ver is V1 {
                d[p1] as int
            } else {
                be_val(d.subrange(p1, p1 + nw))
            };
            let p2 = p1 + nw + text_bytes_len(ver, utf16, len1);
            if d.len() >= p2 + nw {
                if ver is V2 {
                    lemma_be_val_nonneg(d.subrange(p2, p2 + nw));
                }
            }
        }
    }
}

/// Parses the block-info table.
#[verifier::rlimit(100)]
pub fn decode_key_blocks(data: &[u8], ver: &Version, utf16: bool) -> (r: Result<
    Vec<BlockEntryInfo>,
    Error,
>)
    ensures
        r is Ok <==> info_entries_from(data@, 0, *ver, utf16) is Some,
        r matches Ok(v) ==> Some(v@) == info_entries_from(data@, 0, *ver, utf16),
        r is Err ==> (r matches Err(e) && e is InvalidData),
{
    let n = data.len();
    let mut out: Vec<BlockEntryInfo> = Vec::new();
    let mut pos: usize = 0;
    while pos < n
        invariant
            n == data@.len(),
            pos <= n,
            info_entries_from(data@, 0, *ver, utf16) == (match info_entries_from(
                data@,
                pos as int,
                *ver,
                utf16,
            ) {
                Option::Some(t) => Option::Some(out@ + t),
                Option::None => Option::<Seq<BlockEntryInfo>>::None,
            }),
        decreases n - pos,
    {
        let ghost pos0 = pos as int;
        let ghost out0 = out@;
        let w: usize = match ver {
            Version::V1 => 4,
            Version::V2 => 8,
        };
        let nw: usize = match ver {
            Version::V1 => 1,
            Version::V2 => 2,
        };
        // the entry count is skipped: only the sizes are kept
        if n - pos < w + nw {
            return Err(Error::InvalidData);
        }
        let p1 = pos + w;
        let len1: usize = match ver {
            Version::V1 => data[p1] as usize,
            Version::V2 => read_u16_be(data, p1) as usize,
        };
        proof {
            if ver is V2 {
                assert(be_val(data@.subrange(p1 as int, p1 + 2)) == len1);
            }
        }
        let t1: usize = match ver {
            Version::V1 => len1,
            Version::V2 => len1 + 1,
        };
        let tb1: usize = if utf16 {
            t1 * 2
        } else {
            t1
        };
        if n - p1 < nw || n - p1 - nw < tb1 {
            proof {
                assert(info_entries_from(data@, pos0, *ver, utf16) is None);
            }
            return Err(Error::InvalidData);
        }
        let p2 = p1 + nw + tb1;
        if n - p2 < nw {
            return Err(Error::InvalidData);
        }
        let len2: usize = match ver {
            Version::V1 => data[p2] as usize,
            Version::V2 => read_u16_be(data, p2) as usize,
        };
        proof {
            if ver is V2 {
                assert(be_val(data@.subrange(p2 as int, p2 + 2)) == len2);
            }
        }
        let t2: usize = match ver {
            Version::V1 => len2,
            Version::V2 => len2 + 1,
        };
        let tb2: usize = if utf16 {
            t2 * 2
        } else {
            t2
        };
        if n - p2 - nw < tb2 {
            return Err(Error::InvalidData);
        }
        let p3 = p2 + nw + tb2;
        if n - p3 < w || n - p3 - w < w {
            return Err(Error::InvalidData);
        }
        let cs: usize = match ver {
            Version::V1 => read_u32_be(data, p3) as usize,
            Version::V2 => {
                let v = read_u64_be(data, p3);
                if v > usize::MAX as u64 {
                    return Err(Error::InvalidData);
                }
                v as usize
            },
        };
        let ds: usize = match ver {
            Version::V1 => read_u32_be(data, p3 + w) as usize,
            Version::V2 => {
                let v = read_u64_be(data, p3 + w);
                if v > usize::MAX as u64 {
                    return Err(Error::InvalidData);
                }
                v as usize
            },
        };
        out.push(BlockEntryInfo { compressed_size: cs, decompressed_size: ds });
        pos = p3 + w + w;
        proof {
            let entry = BlockEntryInfo { compressed_size: cs, decompressed_size: ds };
            assert(info_entries_from(data@, pos0, *ver, utf16) == (match info_entries_from(
                data@,
                pos as int,
                *ver,
                utf16,
            ) {
                Option::Some(t) => Option::Some(seq![entry] + t),
                Option::None => Option::<Seq<BlockEntryInfo>>::None,
            }));
            assert(out@ =~= out0 + seq![entry]);
            if info_entries_from(data@, pos as int, *ver, utf16) is Some {
                let t = info_entries_from(data@, pos as int, *ver, utf16).unwrap();
                assert(out0 + (seq![entry] + t) =~= out@ + t);
            }
        }
    }
    proof {
        assert(info_entries_from(data@, n as int, *ver, utf16) == Some(
            Seq::<BlockEntryInfo>::empty(),
        ));
        assert(out@ + Seq::<BlockEntryInfo>::empty() =~= out@);
    }
    Ok(out)
}

/// What the key-block-info section holds once decoded: a version-1 file
/// stores the table bare; a version-2 file frames it with a type tag and a
/// big-endian Adler-32, optionally fast-ciphers it with a key derived from
/// the checksum bytes and the fixed word 0x3695, and deflates it.
pub open spec fn key_info_plain_model(buf: Seq<u8>, ver: Version, encrypted: u8) -> Result<
    Seq<u8>,
    Error,
> {
    match ver {
        Version::V1 => Ok(buf),
        Version::V2 => {
            if buf.len() < 8 || buf.subrange(0, 4) != seq![2u8, 0u8, 0u8, 0u8] {
                Err(Error::InvalidData)
            } else {
                let csum = be_val(buf.subrange(4, 8));
                let body = buf.subrange(8, buf.len() as int);
                let dec = if encrypted == 2 {
                    fast_transform(
                        body,
                        ripemd128_of(buf.subrange(4, 8) + seq![0x95u8, 0x36u8, 0u8, 0u8]),
                    )
                } else {
                    body
                };
                match zlib_inflated(dec) {
                    Option::None => Err(Error::InvalidData),
                    Option::Some(info) => if adler32_of(info) == csum {
                        Ok(info)
                    } else {
                        Err(Error::InvalidCheckSum(Section::KeyBlockInfo))
                    },
                }
            }
        },
    }
}

/// Reads `size` bytes of key-block-info at the cursor, undoes the
/// version-2 framing, and parses the table of per-block sizes.
pub fn read_key_block_infos(data: &[u8], pos: &mut usize, size: usize, header: &Header) -> (r:
    Result<Vec<BlockEntryInfo>, Error>)
    ensures
        ({
            let p0 = *old(pos) as int;
            let utf16 = header.codec is Utf16Le;
            let m = key_info_plain_model(
                data@.subrange(p0, p0 + size),
                header.version,
                header.encrypted,
            );
            &&& (p0 + size > data@.len() ==> (r matches Err(e) && e is InvalidData))
            &&& (p0 + size <= data@.len() ==> match m {
                Result::Err(e0) => (r matches Err(e) && e == e0),
                Result::Ok(info) => match info_entries_from(info, 0, header.version, utf16) {
                    Option::None => (r matches Err(e) && e is InvalidData),
                    Option::Some(is) => (r matches Ok(v) && v@ == is && *final(pos) == p0 + size),
                },
            })
        }),
{
    let utf16 = match &header.codec {
        Codec::Utf16Le => true,
        _ => false,
    };
    let buf = match read_buf(data, pos, size) {
        Ok(v) => v,
        Err(e) => {
            return Err(e);
        },
    };
    match header.version {
        Version::V1 => decode_key_blocks(buf.as_slice(), &header.version, utf16),
        Version::V2 => {
            if buf.len() < 8 {
                return Err(Error::InvalidData);
            }
            if !(buf[0] == 2 && buf[1] == 0 && buf[2] == 0 && buf[3] == 0) {
                proof {
                    assert(buf@.subrange(0, 4)[0] == buf@[0]);
                    assert(buf@.subrange(0, 4)[1] == buf@[1]);
                    assert(buf@.subrange(0, 4)[2] == buf@[2]);
                    assert(buf@.subrange(0, 4)[3] == buf@[3]);
                    assert(buf@.subrange(0, 4) != seq![2u8, 0u8, 0u8, 0u8]);
                }
                return Err(Error::InvalidData);
            }
            proof {
                assert(buf@.subrange(0, 4) =~= seq![2u8, 0u8, 0u8, 0u8]);
            }
            let csum = read_u32_be(buf.as_slice(), 4);
            let body = slice_subrange(buf.as_slice(), 8, buf.len());
            let dec: Vec<u8> = if header.encrypted == 2 {
                let mut kd: Vec<u8> = Vec::new();
                kd.push(buf[4]);
                kd.push(buf[5]);
                kd.push(buf[6]);
                kd.push(buf[7]);
                kd.push(0x95);
                kd.push(0x36);
                kd.push(0);
                kd.push(0);
                proof {
                    assert(kd@ =~= buf@.subrange(4, 8) + seq![0x95u8, 0x36u8, 0u8, 0u8]);
                }
                let key = ripemd128(kd.as_slice());
                fast_decrypt(body, key.as_slice())
            } else {
                slice_to_vec(body)
            };
            let info = match zlib_decompress(dec.as_slice()) {
                Some(v) => v,
                None => {
                    return Err(Error::InvalidData);
                },
            };
            match check_adler32(info.as_slice(), csum, Section::KeyBlockInfo) {
                Ok(_) => (),
                Err(e) => {
                    return Err(e);
                },
            }
            decode_key_blocks(info.as_slice(), &header.version, utf16)
        },
    }
}

/// The `(offset, headword)` pairs stored in one decompressed key block:
/// a version-sized big-endian offset, then a terminated string in the
/// file's codec, repeated until the block ends. `None` where the block is
/// truncated, a terminator is missing, or an offset exceeds the machine
/// word.
pub open spec fn block_entries(b: Seq<u8>, ver: Version, utf16: bool) -> Option<
    Seq<(int, Seq<char>)>,
>
    decreases b.len(),
    via block_entries_dec
{
    if b.len() == 0 {
        Some(Seq::empty())
    } else {
        let w = num_width(ver);
        if b.len() < w {
            None
        } else {
            let off = be_val(b.subrange(0, w));
            let rest = b.subrange(w, b.len() as int);
            let term = if utf16 {
                utf16_term_from(rest, 0)
            } else {
                utf8_term_from(rest, 0)
            };
            if off > usize::MAX {
                None
            } else {
                match term {
                    Option::None => None,
                    Option::Some(idx) => {
                        let text = if utf16 {
                            utf16le_decoded(rest.subrange(0, idx))
                        } else {
                            utf8_decoded(rest.subrange(0, idx))
                        };
                        let consumed = idx + (if utf16 {
                            2int
                        } else {
                            1int
                        });
                        match block_entries(rest.subrange(consumed, rest.len() as int), ver, utf16) {
                            Option::None => None,
                            Option::Some(t) => Some(seq![(off, text)] + t),
                        }
                    },
                }
            }
        }
    }
}

#[via_fn]
proof fn block_entries_dec(b: Seq<u8>, ver: Version, utf16: bool) {
    if b.len() > 0 {
        let w = num_width(ver);
        if b.len() >= w {
            let rest = b.subrange(w, b.len() as int);
            crate::text::lemma_utf16_term_bounds(rest, 0);
            crate::text::lemma_utf8_term_bounds(rest, 0);
        }
    }
}

/// The pairs of every key block in order: each block of `infos` is cut off
/// the front of `data`, decoded, and parsed.
pub open spec fn key_blocks_model(
    data: Seq<u8>,
    infos: Seq<BlockEntryInfo>,
    ver: Version,
    utf16: bool,
) -> Result<Seq<(int, Seq<char>)>, Error>
    decreases infos.len(),
{
    if infos.len() == 0 {
        Ok(Seq::empty())
    } else {
        let cs = infos[0].compressed_size as int;
        if !(8 <= cs && cs <= data.len()) {
            Err(Error::InvalidData)
        } else {
            match decode_block_model(
                data.subrange(0, cs),
                cs,
                infos[0].decompressed_size as int,
            ) {
                Result::Err(e) => Err(e),
                Result::Ok(plain) => match block_entries(plain, ver, utf16) {
                    Option::None => Err(Error::InvalidData),
                    Option::Some(es) => match key_blocks_model(
                        data.subrange(cs, data.len() as int),
                        infos.drop_first(),
                        ver,
                        utf16,
                    ) {
                        Result::Err(e) => Err(e),
                        Result::Ok(t) => Ok(es + t),
                    },
                },
            }
        }
    }
}

/// Each parsed pair after normalisation: the offset unchanged, the
/// headword folded by the key maker and encoded as UTF-8 bytes.
pub open spec fn normalized_entries<K: KeyMaker>(
    es: Seq<(int, Seq<char>)>,
    km: &K,
    resource: bool,
) -> Seq<(int, Seq<u8>)> {
    es.map_values(|p: (int, Seq<char>)| (p.0, encode_utf8(km.make_spec(p.1, resource))))
}

/// The map from a key entry to the offset and text it holds.
pub open spec fn entry_view_fn() -> spec_fn(KeyEntry) -> (int, Seq<u8>) {
    |e: KeyEntry| (e.offset as int, e.text@)
}

/// The offsets and texts a key-entry vector holds.
pub open spec fn entries_view(s: Seq<KeyEntry>) -> Seq<(int, Seq<u8>)> {
    s.map_values(entry_view_fn())
}

/// Reads `size` bytes of key-block data at the cursor, decodes each block
/// named by `infos`, parses its `(offset, headword)` pairs, folds each
/// headword through the key maker, and returns the entries sorted by their
/// normalised byte form.
#[verifier::rlimit(100)]
pub fn read_key_entries<K: KeyMaker>(
    data: &[u8],
    pos: &mut usize,
    size: usize,
    header: &Header,
    infos: Vec<BlockEntryInfo>,
    km: &K,
    resource: bool,
) -> (r: Result<Vec<KeyEntry>, Error>)
    ensures
        ({
            let p0 = *old(pos) as int;
            let utf16 = header.codec is Utf16Le;
            let bytes = data@.subrange(p0, p0 + size);
            let m = key_blocks_model(bytes, infos@, header.version, utf16);
            &&& (p0 + size > data@.len() ==> (r matches Err(e) && e is InvalidData))
            &&& ((header.codec is Utf16Le || header.codec is Utf8) && p0 + size <= data@.len()
                ==> match m {
                Result::Err(e0) => (r matches Err(e) && e == e0),
                Result::Ok(es) => (r matches Ok(v) && entries_sorted(v@) && entries_view(
                    v@,
                ).to_multiset() == normalized_entries(es, km, resource).to_multiset() && *final(pos)
                    == p0 + size),
            })
            &&& (header.codec is Other && p0 + size <= data@.len() ==> {
                &&& (r is Ok <==> m is Ok && m.unwrap().len() == 0)
                &&& (r matches Ok(v) ==> v@.len() == 0 && *final(pos) == p0 + size)
            })
        }),
{
    let ghost ver = header.version;
    let ghost utf16 = header.codec is Utf16Le;
    let buf = match read_buf(data, pos, size) {
        Ok(v) => v,
        Err(e) => {
            return Err(e);
        },
    };
    let ghost bytes = buf@;
    let mut entries: Vec<KeyEntry> = Vec::new();
    let ghost mut parsed: Seq<(int, Seq<char>)> = Seq::empty();
    let mut spos: usize = 0;
    let mut bi: usize = 0;
    proof {
        assert(bytes.skip(0) =~= bytes);
        assert(infos@.skip(0) =~= infos@);
        assert(entries_view(entries@) =~= normalized_entries(parsed, km, resource));
    }
    while bi < infos.len()
        invariant
            bytes == buf@,
            ver == header.version,
            utf16 == (header.codec is Utf16Le),
            *old(pos) + size <= data@.len(),
            bytes == data@.subrange(*old(pos) as int, *old(pos) + size),
            *pos == *old(pos) + size,
            spos <= bytes.len(),
            bi <= infos@.len(),
            key_blocks_model(bytes, infos@, ver, utf16) == (match key_blocks_model(
                bytes.skip(spos as int),
                infos@.skip(bi as int),
                ver,
                utf16,
            ) {
                Result::Err(e) => Result::<Seq<(int, Seq<char>)>, Error>::Err(e),
                Result::Ok(t) => Result::<Seq<(int, Seq<char>)>, Error>::Ok(parsed + t),
            }),
            entries_view(entries@) == normalized_entries(parsed, km, resource),
            header.codec is Other ==> entries@.len() == 0 && parsed.len() == 0,
        decreases infos@.len() - bi,
    {
        let cs = infos[bi].compressed_size;
        let ds = infos[bi].decompressed_size;
        proof {
            assert(infos@.skip(bi as int)[0] == infos@[bi as int]);
            assert(infos@.skip(bi as int).drop_first() =~= infos@.skip(bi + 1));
        }
        if cs < 8 || buf.len() - spos < cs {
            return Err(Error::InvalidData);
        }
        let blockslice = slice_subrange(buf.as_slice(), spos, spos + cs);
        proof {
            assert(blockslice@ =~= bytes.skip(spos as int).subrange(0, cs as int));
        }
        let plain = match decode_block(blockslice, cs, ds) {
            Ok(v) => v,
            Err(e) => {
                return Err(e);
            },
        };
        let es = match parse_block(&plain, header, km, resource, &mut entries) {
            Ok(g) => g,
            Err(e) => {
                proof {
                    if header.codec is Other {
                        assert(plain@.len() > 0);
                        lemma_block_entries_nonempty(plain@, ver, utf16);
                        assert(bytes.skip(spos as int).subrange(
                            cs as int,
                            bytes.skip(spos as int).len() as int,
                        ) =~= bytes.skip(spos + cs));
                    }
                }
                return Err(e);
            },
        };
        proof {
            if !(header.codec is Utf16Le || header.codec is Utf8) {
                assert(plain@.len() == 0);
                assert(es@ =~= Seq::<(int, Seq<char>)>::empty());
                assert(normalized_entries(es@, km, resource).len() == 0);
                assert(entries_view(entries@).len() == entries@.len());
                assert(normalized_entries(parsed + es@, km, resource) =~= normalized_entries(
                    parsed,
                    km,
                    resource,
                ) + normalized_entries(es@, km, resource));
                assert(entries_view(entries@) =~= normalized_entries(parsed + es@, km, resource));
            }
            assert(block_entries(plain@, ver, utf16) == Some(es@));
            assert(bytes.skip(spos as int).subrange(
                cs as int,
                bytes.skip(spos as int).len() as int,
            ) =~= bytes.skip(spos + cs));
            if key_blocks_model(bytes.skip(spos + cs), infos@.skip(bi + 1), ver, utf16) is Ok {
                let t = key_blocks_model(
                    bytes.skip(spos + cs),
                    infos@.skip(bi + 1),
                    ver,
                    utf16,
                ).unwrap();
                assert(parsed + (es@ + t) =~= (parsed + es@) + t);
            }
            parsed = parsed + es@;
        }
        spos = spos + cs;
        bi = bi + 1;
    }
    proof {
        assert(infos@.skip(bi as int).len() == 0);
        assert(key_blocks_model(bytes.skip(spos as int), infos@.skip(bi as int), ver, utf16)
            == Result::<Seq<(int, Seq<char>)>, Error>::Ok(Seq::empty()));
        assert(parsed + Seq::<(int, Seq<char>)>::empty() =~= parsed);
        assert(key_blocks_model(bytes, infos@, ver, utf16) == Result::<
            Seq<(int, Seq<char>)>,
            Error,
        >::Ok(parsed));
    }
    let ghost entries_unsorted = entries@;
    let sorted = sort_entries(entries);
    proof {
        crate::keys::lemma_map_to_multiset(sorted@, entries_unsorted, entry_view_fn());
    }
    Ok(sorted)
}

/// A nonempty block never parses to an empty pair list.
proof fn lemma_block_entries_nonempty(b: Seq<u8>, ver: Version, utf16: bool)
    requires
        b.len() > 0,
    ensures
        block_entries(b, ver, utf16) matches Some(t) ==> t.len() >= 1,
{
}

/// Parses the `(offset, headword)` pairs of one decompressed key block and
/// appends them, normalised, to the entry vector.
#[verifier::rlimit(100)]
fn parse_block<K: KeyMaker>(
    plain: &Vec<u8>,
    header: &Header,
    km: &K,
    resource: bool,
    entries: &mut Vec<KeyEntry>,
) -> (r: Result<Ghost<Seq<(int, Seq<char>)>>, Error>)
    ensures
        ({
            let utf16 = header.codec is Utf16Le;
            let m = block_entries(plain@, header.version, utf16);
            &&& ((header.codec is Utf16Le || header.codec is Utf8) ==> match m {
                Option::None => (r matches Err(e) && e is InvalidData),
                Option::Some(es) => (r matches Ok(g) && g@ == es && entries_view(final(entries)@)
                    == entries_view(old(entries)@) + normalized_entries(es, km, resource)),
            })
            &&& (header.codec is Other ==> {
                &&& (r is Ok <==> plain@.len() == 0)
                &&& (r matches Ok(g) ==> g@.len() == 0 && entries_view(final(entries)@)
                    == entries_view(old(entries)@))
            })
        }),
{
    let ghost ver = header.version;
    let ghost utf16 = header.codec is Utf16Le;
    let mut epos: usize = 0;
    let ghost mut bacc: Seq<(int, Seq<char>)> = Seq::empty();
    proof {
        assert(plain@.skip(0) =~= plain@);
        assert(entries_view((*entries)@) =~= entries_view(old(entries)@) + normalized_entries(
            bacc,
            km,
            resource,
        ));
    }
    while epos < plain.len()
        invariant
            ver == header.version,
            utf16 == (header.codec is Utf16Le),
            epos <= plain@.len(),
            block_entries(plain@, ver, utf16) == (match block_entries(
                plain@.skip(epos as int),
                ver,
                utf16,
            ) {
                Option::None => Option::<Seq<(int, Seq<char>)>>::None,
                Option::Some(t) => Option::Some(bacc + t),
            }),
            epos == 0 ==> bacc =~= Seq::<(int, Seq<char>)>::empty(),
            epos > 0 ==> !(header.codec is Other),
            entries_view((*entries)@) == entries_view(old(entries)@) + normalized_entries(
                bacc,
                km,
                resource,
            ),
        decreases plain@.len() - epos,
    {
        let w: usize = match header.version {
            Version::V1 => 4,
            Version::V2 => 8,
        };
        let ghost cur = plain@.skip(epos as int);
        if plain.len() - epos < w {
            return Err(Error::InvalidData);
        }
        proof {
            assert(cur.subrange(0, w as int) =~= plain@.subrange(epos as int, epos + w));
        }
        let off: usize = match header.version {
            Version::V1 => read_u32_be(plain.as_slice(), epos) as usize,
            Version::V2 => {
                let v = read_u64_be(plain.as_slice(), epos);
                if v > usize::MAX as u64 {
                    return Err(Error::InvalidData);
                }
                v as usize
            },
        };
        let strslice = slice_subrange(plain.as_slice(), epos + w, plain.len());
        proof {
            assert(strslice@ =~= cur.subrange(num_width(ver), cur.len() as int));
        }
        let (chars, consumed) = match decode_slice_string(strslice, &header.codec) {
            Ok(p) => p,
            Err(e) => {
                return Err(e);
            },
        };
        proof {
            if utf16 {
                crate::text::lemma_utf16_term_bounds(strslice@, 0);
            } else {
                crate::text::lemma_utf8_term_bounds(strslice@, 0);
            }
        }
        let text_str = chars_to_string(&chars);
        let normalized = km.make(text_str.as_str(), resource);
        let text: Vec<u8> = slice_to_vec(normalized.as_str().as_bytes());
        let ghost entries0 = (*entries)@;
        entries.push(KeyEntry { offset: off, text });
        proof {
            let p = (off as int, chars@);
            let rest = cur.subrange(num_width(ver), cur.len() as int);
            let term = if utf16 {
                utf16_term_from(rest, 0)
            } else {
                utf8_term_from(rest, 0)
            };
            let idx = term.unwrap();
            assert(rest.subrange(0, idx) =~= strslice@.subrange(0, idx));
            assert(rest.subrange(consumed as int, rest.len() as int) =~= plain@.skip(
                epos + w + consumed,
            ));
            assert(block_entries(cur, ver, utf16) == (match block_entries(
                plain@.skip(epos + w + consumed),
                ver,
                utf16,
            ) {
                Option::None => Option::<Seq<(int, Seq<char>)>>::None,
                Option::Some(t) => Option::Some(seq![p] + t),
            }));
            if block_entries(plain@.skip(epos + w + consumed), ver, utf16) is Some {
                let t = block_entries(plain@.skip(epos + w + consumed), ver, utf16).unwrap();
                assert(bacc + (seq![p] + t) =~= bacc.push(p) + t);
            }
            assert(text@ == encode_utf8(km.make_spec(chars@, resource)));
            assert(entries_view((*entries)@) =~= entries_view(entries0).push((off as int, text@)));
            assert(normalized_entries(bacc.push(p), km, resource) =~= normalized_entries(
                bacc,
                km,
                resource,
            ).push((off as int, encode_utf8(km.make_spec(chars@, resource)))));
            assert(entries_view(entries0) + normalized_entries(bacc.push(p), km, resource)
                =~= (entries_view(entries0) + normalized_entries(bacc, km, resource)).push(
                (off as int, text@)));
            bacc = bacc.push(p);
        }
        epos = epos + w + consumed;
    }
    proof {
        assert(plain@.skip(epos as int).len() == 0);
        assert(block_entries(plain@.skip(epos as int), ver, utf16) == Some(
            Seq::<(int, Seq<char>)>::empty(),
        ));
        assert(bacc + Seq::<(int, Seq<char>)>::empty() =~= bacc);
        assert(block_entries(plain@, ver, utf16) == Some(bacc));
    }
    Ok(Ghost(bacc))
}

} // verus!
