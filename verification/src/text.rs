use vstd::prelude::*;

use encoding_rs::{Encoding, UTF_16LE, UTF_8};

use crate::Error;

verus! {

/// The text codec a dictionary stores its keywords in. Keyword parsing
/// supports UTF-8 and UTF-16LE; any other label the WHATWG registry knows
/// is carried by its canonical name and rejected when a string is decoded.
#[derive(Debug)]
pub enum Codec {
    Utf8,
    Utf16Le,
    Other(String),
}

/// Whether two codec values pick the same codec (their names compared as
/// text).
pub open spec fn codec_matches(a: Codec, b: Codec) -> bool {
    match (a, b) {
        (Codec::Utf8, Codec::Utf8) => true,
        (Codec::Utf16Le, Codec::Utf16Le) => true,
        (Codec::Other(x), Codec::Other(y)) => x@ == y@,
        _ => false,
    }
}

impl Codec {
    /// A copy that provably picks the same codec.
    pub fn duplicate(&self) -> (r: Codec)
        ensures
            codec_matches(r, *self),
    {
        match self {
            Codec::Utf8 => Codec::Utf8,
            Codec::Utf16Le => Codec::Utf16Le,
            Codec::Other(s) => Codec::Other(s.clone()),
        }
    }
}

/// Name for what encoding_rs yields when a byte buffer is decoded as
/// UTF-16LE (with BOM sniffing, as the library's decode entry point does).
pub uninterp spec fn utf16le_decoded(data: Seq<u8>) -> Seq<char>;

/// Relies on encoding_rs::UTF_16LE.decode: the decoded text is a function
/// of the input bytes alone.
#[verifier::external_body]
pub(crate) fn decode_utf16le(data: &[u8]) -> (r: Vec<char>)
    ensures
        r@ == utf16le_decoded(data@),
{
    let (text, _, _) = UTF_16LE.decode(data);
    text.chars().collect()
}

/// Name for what encoding_rs yields when a byte buffer is decoded as UTF-8
/// (with BOM sniffing, as the library's decode entry point does).
pub uninterp spec fn utf8_decoded(data: Seq<u8>) -> Seq<char>;

/// Relies on encoding_rs::UTF_8.decode: the decoded text is a function of
/// the input bytes alone.
#[verifier::external_body]
pub(crate) fn decode_utf8(data: &[u8]) -> (r: Vec<char>)
    ensures
        r@ == utf8_decoded(data@),
{
    let (text, _, _) = UTF_8.decode(data);
    text.chars().collect()
}

/// Name for the canonical encoding name the WHATWG label registry gives a
/// label, or `None` where the label is unknown.
pub uninterp spec fn whatwg_label(label: Seq<char>) -> Option<Seq<char>>;

/// Relies on encoding_rs::Encoding::for_label: which encoding a label
/// resolves to is a function of the label alone; UTF-16LE and UTF-8 are the
/// statics of those canonical names.
#[verifier::external_body]
pub(crate) fn codec_for_label(label: &str) -> (r: Option<Codec>)
    ensures
        r is Some <==> whatwg_label(label@) is Some,
        r matches Some(c) ==> match c {
            Codec::Utf16Le => whatwg_label(label@) == Some("UTF-16LE"@),
            Codec::Utf8 => whatwg_label(label@) == Some("UTF-8"@),
            Codec::Other(name) => whatwg_label(label@) == Some(name@) && name@ != "UTF-16LE"@
                && name@ != "UTF-8"@,
        },
{
    match Encoding::for_label(label.as_bytes()) {
        None => None,
        Some(e) if e == UTF_16LE => Some(Codec::Utf16Le),
        Some(e) if e == UTF_8 => Some(Codec::Utf8),
        Some(e) => Some(Codec::Other(e.name().to_string())),
    }
}

/// Relies on String's FromIterator<char>: collecting chars yields the
/// string of exactly those chars.
#[verifier::external_body]
pub(crate) fn chars_to_string(v: &Vec<char>) -> (r: String)
    ensures
        r@ == v@,
{
    v.iter().collect()
}

/// Position of the first two-zero-byte terminator on an even boundary at
/// or after `i`, the way UTF-16LE keyword strings end.
pub open spec fn utf16_term_from(s: Seq<u8>, i: int) -> Option<int>
    decreases s.len() - i,
{
    if i + 1 < s.len() {
        if s[i] == 0 && s[i + 1] == 0 {
            Some(i)
        } else {
            utf16_term_from(s, i + 2)
        }
    } else {
        None
    }
}

/// Position of the first zero byte at or after `i`, the way single-byte
/// keyword strings end.
pub open spec fn utf8_term_from(s: Seq<u8>, i: int) -> Option<int>
    decreases s.len() - i,
{
    if i < s.len() {
        if s[i] == 0 {
            Some(i)
        } else {
            utf8_term_from(s, i + 1)
        }
    } else {
        None
    }
}

pub proof fn lemma_utf16_term_bounds(s: Seq<u8>, i: int)
    requires
        0 <= i,
    ensures
        utf16_term_from(s, i) matches Some(q) ==> i <= q && q + 1 < s.len(),
    decreases s.len() - i,
{
    if i + 1 < s.len() && !(s[i] == 0 && s[i + 1] == 0) {
        lemma_utf16_term_bounds(s, i + 2);
    }
}

pub proof fn lemma_utf8_term_bounds(s: Seq<u8>, i: int)
    requires
        0 <= i,
    ensures
        utf8_term_from(s, i) matches Some(q) ==> i <= q && q < s.len(),
    decreases s.len() - i,
{
    if i < s.len() && s[i] != 0 {
        lemma_utf8_term_bounds(s, i + 1);
    }
}

/// Decodes one terminated keyword string at the head of `slice`: the text
/// before the terminator, and how many bytes the string spans including
/// the terminator. Only UTF-8 and UTF-16LE keys are supported; a missing
/// terminator is a structural fault.
pub fn decode_slice_string(slice: &[u8], codec: &Codec) -> (r: Result<(Vec<char>, usize), Error>)
    ensures
        codec is Utf16Le ==> {
            &&& r is Ok <==> utf16_term_from(slice@, 0) is Some
            &&& (r matches Ok(p) ==> {
                let idx = utf16_term_from(slice@, 0).unwrap();
                p.0@ == utf16le_decoded(slice@.subrange(0, idx)) && p.1 == idx + 2
            })
            &&& (r is Err ==> (r matches Err(e) && e is InvalidData))
        },
        codec is Utf8 ==> {
            &&& r is Ok <==> utf8_term_from(slice@, 0) is Some
            &&& (r matches Ok(p) ==> {
                let idx = utf8_term_from(slice@, 0).unwrap();
                p.0@ == utf8_decoded(slice@.subrange(0, idx)) && p.1 == idx + 1
            })
            &&& (r is Err ==> (r matches Err(e) && e is InvalidData))
        },
        codec is Other ==> (r matches Err(e) && (e matches Error::InvalidEncoding(n) && n@
            == codec->Other_0@)),
{
    match codec {
        Codec::Utf16Le => {
            let mut i: usize = 0;
            while i < slice.len() && i + 1 < slice.len()
                invariant
                    codec is Utf16Le,
                    utf16_term_from(slice@, 0) == utf16_term_from(slice@, i as int),
                decreases slice.len() - i,
            {
                if slice[i] == 0 && slice[i + 1] == 0 {
                    proof {
                        assert(utf16_term_from(slice@, i as int) == Some(i as int));
                    }
                    let text = decode_utf16le(vstd::slice::slice_subrange(slice, 0, i));
                    return Ok((text, i + 2));
                }
                i = i + 2;
            }
            Err(Error::InvalidData)
        },
        Codec::Utf8 => {
            let mut i: usize = 0;
            while i < slice.len()
                invariant
                    codec is Utf8,
                    utf8_term_from(slice@, 0) == utf8_term_from(slice@, i as int),
                decreases slice.len() - i,
            {
                if slice[i] == 0 {
                    proof {
                        assert(utf8_term_from(slice@, i as int) == Some(i as int));
                    }
                    let text = decode_utf8(vstd::slice::slice_subrange(slice, 0, i));
                    return Ok((text, i + 1));
                }
                i = i + 1;
            }
            Err(Error::InvalidData)
        },
        Codec::Other(name) => Err(Error::InvalidEncoding(name.clone())),
    }
}

} // verus!
