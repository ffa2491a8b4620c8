use vstd::prelude::*;

use crate::attrs::{attr_get, attr_get_exec, attrs_from, copy_range, read_keys};
use crate::bytes::{be_val, le32_val, read_buf, read_u32_be, read_u32_le};
use crate::checksum::{adler32_of, check_adler32};
use crate::text::{
    chars_to_string, codec_for_label, codec_matches, decode_utf16le, utf16le_decoded, whatwg_label,
    Codec,
};
use crate::{Error, Section, Version};

use vstd::string::StringExecFns;

verus! {

/// A whitespace character, as Rust's `trim` understands it (the Unicode
/// White_Space property).
pub open spec fn is_space_char(c: char) -> bool {
    let u = c as u32;
    (0x9 <= u && u <= 0xd) || u == 0x20 || u == 0x85 || u == 0xa0 || u == 0x1680 || (0x2000 <= u
        && u <= 0x200a) || u == 0x2028 || u == 0x2029 || u == 0x202f || u == 0x205f || u == 0x3000
}

pub open spec fn trim_front(s: Seq<char>) -> Seq<char>
    decreases s.len(),
{
    if s.len() > 0 && is_space_char(s[0]) {
        trim_front(s.subrange(1, s.len() as int))
    } else {
        s
    }
}

pub open spec fn trim_back(s: Seq<char>) -> Seq<char>
    decreases s.len(),
{
    if s.len() > 0 && is_space_char(s.last()) {
        trim_back(s.drop_last())
    } else {
        s
    }
}

/// The text with leading and trailing whitespace removed.
pub open spec fn trimmed(s: Seq<char>) -> Seq<char> {
    trim_back(trim_front(s))
}

fn is_space_char_exec(c: char) -> (r: bool)
    ensures
        r == is_space_char(c),
{
    let u = c as u32;
    (0x9 <= u && u <= 0xd) || u == 0x20 || u == 0x85 || u == 0xa0 || u == 0x1680 || (0x2000 <= u
        && u <= 0x200a) || u == 0x2028 || u == 0x2029 || u == 0x202f || u == 0x205f || u == 0x3000
}

/// Removes leading and trailing whitespace.
pub fn trim(v: &Vec<char>) -> (r: Vec<char>)
    ensures
        r@ == trimmed(v@),
{
    let n = v.len();
    proof {
        assert(v@.subrange(0, n as int) =~= v@);
    }
    let mut a: usize = 0;
    while a < n && is_space_char_exec(v[a])
        invariant
            n == v@.len(),
            a <= n,
            trim_front(v@) == trim_front(v@.subrange(a as int, n as int)),
        decreases n - a,
    {
        proof {
            let cur = v@.subrange(a as int, n as int);
            assert(cur[0] == v@[a as int]);
            assert(cur.subrange(1, cur.len() as int) =~= v@.subrange(a + 1, n as int));
        }
        a = a + 1;
    }
    proof {
        let cur = v@.subrange(a as int, n as int);
        if a < n {
            assert(trim_front(cur) == cur);
        } else {
            assert(cur.len() == 0);
            assert(trim_front(cur) == cur);
        }
    }
    let mut b: usize = n;
    while b > a && is_space_char_exec(v[b - 1])
        invariant
            n == v@.len(),
            a <= b <= n,
            trim_back(v@.subrange(a as int, n as int)) == trim_back(
                v@.subrange(a as int, b as int),
            ),
        decreases b,
    {
        proof {
            let cur = v@.subrange(a as int, b as int);
            assert(cur.last() == v@[b - 1]);
            assert(cur.drop_last() =~= v@.subrange(a as int, b - 1));
        }
        b = b - 1;
    }
    proof {
        let cur = v@.subrange(a as int, b as int);
        if b > a {
            assert(cur.last() == v@[b - 1]);
            assert(trim_back(cur) == cur);
        } else {
            assert(cur.len() == 0);
            assert(trim_back(cur) == cur);
        }
    }
    copy_range(v, a, b)
}

/// A base-ten digit.
pub open spec fn is_digit_char(c: char) -> bool {
    0x30 <= c as u32 && c as u32 <= 0x39
}

/// The value of one digit character.
pub open spec fn char_digit(c: char) -> int {
    c as u32 - 0x30
}

pub open spec fn all_digits(s: Seq<char>) -> bool {
    forall|i: int| 0 <= i < s.len() ==> is_digit_char(#[trigger] s[i])
}

/// The value of a digit string read in base ten.
pub open spec fn digits_val(s: Seq<char>) -> int
    decreases s.len(),
{
    if s.len() == 0 {
        0
    } else {
        digits_val(s.drop_last()) * 10 + char_digit(s.last())
    }
}

/// What `str::parse::<u8>` yields: an optional leading plus sign, then one
/// or more digits whose value fits in a byte.
pub open spec fn parse_u8_spec(s: Seq<char>) -> Option<u8> {
    let d = if s.len() > 0 && s[0] == '+' {
        s.subrange(1, s.len() as int)
    } else {
        s
    };
    if d.len() > 0 && all_digits(d) && digits_val(d) <= 255 {
        Some(digits_val(d) as u8)
    } else {
        None
    }
}

proof fn lemma_digits_nonneg(s: Seq<char>)
    requires
        all_digits(s),
    ensures
        digits_val(s) >= 0,
    decreases s.len(),
{
    if s.len() > 0 {
        assert(all_digits(s.drop_last())) by {
            assert(forall|i: int|
                0 <= i < s.len() - 1 ==> s.drop_last()[i] == #[trigger] s[i]);
        }
        lemma_digits_nonneg(s.drop_last());
    }
}

proof fn lemma_digits_mono(s: Seq<char>, j: int)
    requires
        all_digits(s),
        0 <= j <= s.len(),
    ensures
        digits_val(s.subrange(0, j)) <= digits_val(s),
    decreases s.len(),
{
    if j == s.len() {
        assert(s.subrange(0, j) =~= s);
    } else {
        let t = s.drop_last();
        assert(all_digits(t)) by {
            assert(forall|i: int| 0 <= i < t.len() ==> t[i] == #[trigger] s[i]);
        }
        lemma_digits_mono(t, j);
        assert(t.subrange(0, j) =~= s.subrange(0, j));
        lemma_digits_nonneg(t);
    }
}

/// Parses a byte the way `str::parse::<u8>` does.
pub fn parse_u8(v: &Vec<char>) -> (r: Option<u8>)
    ensures
        r == parse_u8_spec(v@),
{
    let n = v.len();
    let start: usize = if n > 0 && v[0] == '+' {
        1
    } else {
        0
    };
    let ghost d = if v@.len() > 0 && v@[0] == '+' {
        v@.subrange(1, v@.len() as int)
    } else {
        v@
    };
    if n == start {
        return None;
    }
    let mut acc: u32 = 0;
    let mut i: usize = start;
    while i < n
        invariant
            n == v@.len(),
            start <= i <= n,
            start <= 1,
            d == (if v@.len() > 0 && v@[0] == '+' {
                v@.subrange(1, v@.len() as int)
            } else {
                v@
            }),
            d.len() == n - start,
            forall|k: int| 0 <= k < d.len() ==> d[k] == v@[k + start],
            all_digits(d.subrange(0, i - start)),
            acc == digits_val(d.subrange(0, i - start)),
            acc <= 255,
        decreases n - i,
    {
        let c = v[i];
        let u = c as u32;
        if !(0x30 <= u && u <= 0x39) {
            proof {
                assert(d[i - start] == v@[i as int]);
                assert(!is_digit_char(d[i - start]));
            }
            return None;
        }
        proof {
            let pre1 = d.subrange(0, i + 1 - start);
            assert(pre1.drop_last() =~= d.subrange(0, i - start));
            assert(pre1.last() == d[i - start]);
            assert(d[i - start] == v@[i as int]);
            assert(all_digits(pre1));
        }
        acc = acc * 10 + (u - 0x30);
        if acc > 255 {
            proof {
                if all_digits(d) {
                    lemma_digits_mono(d, i + 1 - start);
                }
            }
            return None;
        }
        i = i + 1;
    }
    proof {
        assert(d.subrange(0, n - start) =~= d);
    }
    Some(acc as u8)
}

/// The parsed file header.
#[derive(Debug)]
pub struct Header {
    pub version: Version,
    pub encrypted: u8,
    pub codec: Codec,
    pub title: String,
}

/// The attribute pairs the header's UTF-16LE text carries.
pub open spec fn header_attrs(info: Seq<u8>) -> Seq<(Seq<char>, Seq<char>)> {
    attrs_from(utf16le_decoded(info), 0)
}

/// The record-payload encryption hint: `Yes` means 1, a parsable byte means
/// itself, anything else (or no attribute) means 0.
pub open spec fn encrypted_of(at: Seq<(Seq<char>, Seq<char>)>) -> u8 {
    match attr_get(at, "Encrypted"@) {
        Option::None => 0,
        Option::Some(v) => if v == "Yes"@ {
            1
        } else {
            match parse_u8_spec(v) {
                Option::Some(n) => n,
                Option::None => 0,
            }
        },
    }
}

/// Whether the header section at `p0` parses: it fits with its checksum,
/// the checksum holds, the version attribute is present with a leading
/// digit 1 or 2 after trimming, a title is present, and any nonempty
/// encoding label is known to the registry.
pub open spec fn header_success(d: Seq<u8>, p0: int) -> bool {
    let hl = be_val(d.subrange(p0, p0 + 4));
    let fits = p0 + 4 <= d.len() && p0 + 8 + hl <= d.len();
    let info = d.subrange(p0 + 4, p0 + 4 + hl);
    let csum_ok = adler32_of(info) == le32_val(d.subrange(p0 + 4 + hl, p0 + 8 + hl));
    let at = header_attrs(info);
    let ver = attr_get(at, "GeneratedByEngineVersion"@);
    let tver = trimmed(ver.unwrap());
    let ver_digit = ver is Some && tver.len() > 0 && is_digit_char(tver[0]);
    let ver_sel = ver_digit && (char_digit(tver[0]) == 1 || char_digit(tver[0]) == 2);
    let title = attr_get(at, "Title"@);
    let enc = attr_get(at, "Encoding"@);
    let enc_default = enc is None || enc.unwrap().len() == 0;
    let enc_ok = enc_default || whatwg_label(enc.unwrap()) is Some;
    fits && csum_ok && ver_digit && title is Some && ver_sel && enc_ok
}

/// Which error a failed header parse carries: the first check that fails
/// names it.
pub open spec fn header_error_matches(d: Seq<u8>, p0: int, e: Error) -> bool {
    let hl = be_val(d.subrange(p0, p0 + 4));
    let fits = p0 + 4 <= d.len() && p0 + 8 + hl <= d.len();
    let info = d.subrange(p0 + 4, p0 + 4 + hl);
    let csum_ok = adler32_of(info) == le32_val(d.subrange(p0 + 4 + hl, p0 + 8 + hl));
    let at = header_attrs(info);
    let ver = attr_get(at, "GeneratedByEngineVersion"@);
    let tver = trimmed(ver.unwrap());
    let ver_digit = ver is Some && tver.len() > 0 && is_digit_char(tver[0]);
    let ver_sel = ver_digit && (char_digit(tver[0]) == 1 || char_digit(tver[0]) == 2);
    let title = attr_get(at, "Title"@);
    let enc = attr_get(at, "Encoding"@);
    let enc_default = enc is None || enc.unwrap().len() == 0;
    let enc_ok = enc_default || whatwg_label(enc.unwrap()) is Some;
    if !fits {
        e is InvalidData
    } else if !csum_ok {
        e == Error::InvalidCheckSum(Section::Header)
    } else if ver is None {
        e is NoVersion
    } else if !ver_digit {
        e matches Error::InvalidVersion(sv) && sv@ == tver
    } else if title is None {
        e is NoTitle
    } else if !ver_sel {
        e matches Error::UnsupportedVersion(dd) && dd == char_digit(tver[0])
    } else if !enc_ok {
        e matches Error::InvalidEncoding(sv) && sv@ == enc.unwrap()
    } else {
        false
    }
}

/// Reads and checks the header section: a four-byte big-endian length, the
/// UTF-16LE attribute text, and its little-endian Adler-32; then extracts
/// version, title, encryption hint and keyword codec from the attributes.
pub fn read_header(data: &[u8], pos: &mut usize, default_codec: &Codec) -> (r: Result<
    Header,
    Error,
>)
    ensures
        ({
            let p0 = *old(pos) as int;
            let dl = data@.len() as int;
            let hl = be_val(data@.subrange(p0, p0 + 4));
            let fits = p0 + 4 <= dl && p0 + 8 + hl <= dl;
            let info = data@.subrange(p0 + 4, p0 + 4 + hl);
            let csum_ok = adler32_of(info) == le32_val(data@.subrange(p0 + 4 + hl, p0 + 8 + hl));
            let at = header_attrs(info);
            let ver = attr_get(at, "GeneratedByEngineVersion"@);
            let tver = trimmed(ver.unwrap());
            let ver_digit = ver is Some && tver.len() > 0 && is_digit_char(tver[0]);
            let ver_sel = ver_digit && (char_digit(tver[0]) == 1 || char_digit(tver[0]) == 2);
            let title = attr_get(at, "Title"@);
            let enc = attr_get(at, "Encoding"@);
            let enc_default = enc is None || enc.unwrap().len() == 0;
            let enc_ok = enc_default || whatwg_label(enc.unwrap()) is Some;
            &&& (r is Ok <==> fits && csum_ok && ver_digit && title is Some && ver_sel && enc_ok)
            &&& (r matches Ok(h) ==> {
                &&& h.version == (if char_digit(tver[0]) == 1 {
                    Version::V1
                } else {
                    Version::V2
                })
                &&& h.title@ == trimmed(title.unwrap())
                &&& h.encrypted == encrypted_of(at)
                &&& (enc_default ==> codec_matches(h.codec, *default_codec))
                &&& (!enc_default ==> match h.codec {
                    Codec::Utf16Le => whatwg_label(enc.unwrap()) == Some("UTF-16LE"@),
                    Codec::Utf8 => whatwg_label(enc.unwrap()) == Some("UTF-8"@),
                    Codec::Other(name) => whatwg_label(enc.unwrap()) == Some(name@) && name@
                        != "UTF-16LE"@ && name@ != "UTF-8"@,
                })
                &&& *final(pos) == p0 + 8 + hl
            })
            &&& (!fits <==> (r matches Err(e) && e is InvalidData))
            &&& (fits && !csum_ok <==> (r matches Err(e) && e matches Error::InvalidCheckSum(s)
                && s == Section::Header))
            &&& (fits && csum_ok && ver is None <==> (r matches Err(e) && e is NoVersion))
            &&& (fits && csum_ok && ver is Some && !ver_digit <==> (r matches Err(e) && (e matches
                Error::InvalidVersion(sv) && sv@ == tver)))
            &&& (fits && csum_ok && ver_digit && title is None <==> (r matches Err(e)
                && e is NoTitle))
            &&& (fits && csum_ok && ver_digit && title is Some && !ver_sel <==> (r matches Err(e)
                && (e matches Error::UnsupportedVersion(d) && d == char_digit(tver[0]))))
            &&& (fits && csum_ok && ver_digit && title is Some && ver_sel && !enc_ok <==> (
            r matches Err(e) && (e matches Error::InvalidEncoding(sv) && sv@ == enc.unwrap())))
        }),
{
    let ghost p0 = *pos as int;
    if data.len() < 4 || *pos > data.len() - 4 {
        return Err(Error::InvalidData);
    }
    let hl32 = read_u32_be(data, *pos);
    let hl = hl32 as usize;
    *pos = *pos + 4;
    let info_buf = match read_buf(data, pos, hl) {
        Ok(v) => v,
        Err(e) => {
            return Err(e);
        },
    };
    if data.len() < 4 || *pos > data.len() - 4 {
        return Err(Error::InvalidData);
    }
    let checksum = read_u32_le(data, *pos);
    *pos = *pos + 4;
    match check_adler32(info_buf.as_slice(), checksum, Section::Header) {
        Ok(_) => (),
        Err(e) => {
            return Err(e);
        },
    }
    let chars = decode_utf16le(info_buf.as_slice());
    let attrs = read_keys(&chars);
    let ghost at = header_attrs(data@.subrange(p0 + 4, p0 + 4 + be_val(data@.subrange(p0, p0 + 4))));
    proof {
        assert(info_buf@ == data@.subrange(p0 + 4, p0 + 4 + be_val(data@.subrange(p0, p0 + 4))));
        assert(crate::attrs::pairs_view(attrs@) == at);
    }
    let ver_raw = match attr_get_exec(&attrs, &String::from_str("GeneratedByEngineVersion")) {
        Some(v) => v,
        None => {
            return Err(Error::NoVersion);
        },
    };
    let tver = trim(&ver_raw);
    if tver.len() == 0 {
        return Err(Error::InvalidVersion(chars_to_string(&tver)));
    }
    let c0 = tver[0];
    let u0 = c0 as u32;
    if !(0x30 <= u0 && u0 <= 0x39) {
        return Err(Error::InvalidVersion(chars_to_string(&tver)));
    }
    let vernum: u8 = (u0 - 0x30) as u8;
    let title_raw = match attr_get_exec(&attrs, &String::from_str("Title")) {
        Some(v) => v,
        None => {
            return Err(Error::NoTitle);
        },
    };
    let ttrim = trim(&title_raw);
    let title = chars_to_string(&ttrim);
    let version = if vernum == 1 {
        Version::V1
    } else if vernum == 2 {
        Version::V2
    } else {
        return Err(Error::UnsupportedVersion(vernum));
    };
    let encrypted: u8 = match attr_get_exec(&attrs, &String::from_str("Encrypted")) {
        None => 0,
        Some(v) => {
            let sv = chars_to_string(&v);
            if sv == String::from_str("Yes") {
                1
            } else {
                match parse_u8(&v) {
                    Some(n) => n,
                    None => 0,
                }
            }
        },
    };
    let codec = match attr_get_exec(&attrs, &String::from_str("Encoding")) {
        None => default_codec.duplicate(),
        Some(v) => {
            if v.len() == 0 {
                default_codec.duplicate()
            } else {
                let label = chars_to_string(&v);
                match codec_for_label(label.as_str()) {
                    Some(c) => c,
                    None => {
                        return Err(Error::InvalidEncoding(label));
                    },
                }
            }
        },
    };
    Ok(Header { version, encrypted, codec, title })
}

/// The byte lengths of the key-block-info section and of the key-block
/// data section that follow the key-block header.
pub struct KeyBlockHeader {
    pub block_info_size: usize,
    pub key_block_size: usize,
}

/// Reads the sixteen-byte key-block header of a version-1 file; the two
/// sizes sit at offsets 8 and 12 as big-endian u32.
pub fn read_key_block_header_v1(data: &[u8], pos: &mut usize) -> (r: Result<KeyBlockHeader, Error>)
    ensures
        r is Ok <==> *old(pos) + 16 <= data.len(),
        r matches Ok(h) ==> {
            &&& h.block_info_size == be_val(data@.subrange(*old(pos) + 8, *old(pos) + 12))
            &&& h.key_block_size == be_val(data@.subrange(*old(pos) + 12, *old(pos) + 16))
            &&& *final(pos) == *old(pos) + 16
        },
        r is Err ==> (r matches Err(e) && e is InvalidData),
{
    let buf = match read_buf(data, pos, 16) {
        Ok(v) => v,
        Err(e) => {
            return Err(e);
        },
    };
    let block_info_size = read_u32_be(buf.as_slice(), 8);
    let key_block_size = read_u32_be(buf.as_slice(), 12);
    proof {
        assert(buf@.subrange(8, 12) =~= data@.subrange(*old(pos) + 8, *old(pos) + 12));
        assert(buf@.subrange(12, 16) =~= data@.subrange(*old(pos) + 12, *old(pos) + 16));
    }
    Ok(KeyBlockHeader { block_info_size: block_info_size as usize, key_block_size: key_block_size as usize })
}

/// Reads the forty-byte key-block header of a version-2 file and checks
/// its big-endian Adler-32; the two sizes sit at offsets 24 and 32 as
/// big-endian u64.
pub fn read_key_block_header_v2(data: &[u8], pos: &mut usize) -> (r: Result<KeyBlockHeader, Error>)
    ensures
        ({
            let p0 = *old(pos) as int;
            let body = data@.subrange(p0, p0 + 40);
            let csum_ok = adler32_of(body) == be_val(data@.subrange(p0 + 40, p0 + 44));
            let s1 = be_val(data@.subrange(p0 + 24, p0 + 32));
            let s2 = be_val(data@.subrange(p0 + 32, p0 + 40));
            let fits = p0 + 44 <= data@.len() && s1 <= usize::MAX && s2 <= usize::MAX;
            &&& (r is Ok <==> fits && csum_ok)
            &&& (r matches Ok(h) ==> {
                &&& h.block_info_size == s1
                &&& h.key_block_size == s2
                &&& *final(pos) == p0 + 44
            })
            &&& (p0 + 44 <= data@.len() && !csum_ok <==> (r matches Err(e) && e matches
                Error::InvalidCheckSum(s) && s == Section::KeyBlockHeader))
            &&& (!fits && (p0 + 44 > data@.len() || csum_ok) <==> (r matches Err(e)
                && e is InvalidData))
        }),
{
    let ghost p0 = *old(pos) as int;
    let buf = match read_buf(data, pos, 40) {
        Ok(v) => v,
        Err(e) => {
            return Err(e);
        },
    };
    if data.len() < 4 || *pos > data.len() - 4 {
        proof {
            assert(p0 + 44 > data@.len());
        }
        return Err(Error::InvalidData);
    }
    let checksum = read_u32_be(data, *pos);
    *pos = *pos + 4;
    match check_adler32(buf.as_slice(), checksum, Section::KeyBlockHeader) {
        Ok(_) => (),
        Err(e) => {
            return Err(e);
        },
    }
    let s1 = crate::bytes::read_u64_be(buf.as_slice(), 24);
    let s2 = crate::bytes::read_u64_be(buf.as_slice(), 32);
    proof {
        assert(buf@.subrange(24, 32) =~= data@.subrange(p0 + 24, p0 + 32));
        assert(buf@.subrange(32, 40) =~= data@.subrange(p0 + 32, p0 + 40));
    }
    if s1 > usize::MAX as u64 || s2 > usize::MAX as u64 {
        return Err(Error::InvalidData);
    }
    Ok(KeyBlockHeader { block_info_size: s1 as usize, key_block_size: s2 as usize })
}

} // verus!
