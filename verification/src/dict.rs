use vstd::prelude::*;

use vstd::pervasive::VecAdditionalExecFns;
use vstd::slice::{slice_subrange, slice_to_vec};
use vstd::utf8::encode_utf8;

use crate::block::{decode_block, decode_block_model};
use crate::bytes::be_val;
use crate::header::{read_header, read_key_block_header_v1, read_key_block_header_v2};
use crate::keyload::{entries_view, key_blocks_model, normalized_entries, read_key_block_infos,
    read_key_entries};
use crate::keys::{bytes_le, bytes_le_exec, entries_sorted, lemma_bytes_le_total,
    lemma_bytes_le_trans, KeyEntry, KeyMaker};
use crate::records::{cum_comp, cum_decomp, lemma_cum_comp_mono, locate_block, locate_record,
    read_record_blocks, RecordOffset};
use crate::text::{codec_matches, Codec};
use crate::{BlockEntryInfo, Error, Section, Version};

verus! {

/// The least index at or after `i` whose entry's text is exactly `key`.
pub open spec fn find_key(entries: Seq<KeyEntry>, key: Seq<u8>, i: int) -> Option<int>
    decreases entries.len() - i,
{
    if i >= entries.len() {
        None
    } else if entries[i].text@ == key {
        Some(i)
    } else {
        find_key(entries, key, i + 1)
    }
}

/// What decoding the record block at index `j` yields.
pub open spec fn record_block_model(infos: Seq<BlockEntryInfo>, data: Seq<u8>, j: int) -> Result<
    Seq<u8>,
    Error,
> {
    let cs = infos[j].compressed_size as int;
    let bo = cum_comp(infos, j);
    if !(8 <= cs && bo + cs <= data.len()) {
        Err(Error::InvalidData)
    } else {
        decode_block_model(data.subrange(bo, bo + cs), cs, infos[j].decompressed_size as int)
    }
}

/// What a lookup yields, as a function of the handle's immutable state and
/// the normalised key bytes alone: the first matching index entry, the
/// first record block covering its offset, that block decoded, and the
/// decompressed bytes from the record's position to the block's end.
/// A key that is absent, or whose offset no block covers, yields nothing.
pub open spec fn lookup_model(
    entries: Seq<KeyEntry>,
    infos: Seq<BlockEntryInfo>,
    data: Seq<u8>,
    key: Seq<u8>,
) -> Result<Option<Seq<u8>>, Error> {
    match find_key(entries, key, 0) {
        Option::None => Ok(Option::None),
        Option::Some(i) => {
            let off = entries[i].offset as int;
            match locate_block(infos, off, 0) {
                Option::None => Ok(Option::None),
                Option::Some(j) => match record_block_model(infos, data, j) {
                    Result::Err(e) => Err(e),
                    Result::Ok(plain) => {
                        let bo = off - cum_decomp(infos, j);
                        if bo <= plain.len() {
                            Ok(Option::Some(plain.subrange(bo, plain.len() as int)))
                        } else {
                            Err(Error::InvalidData)
                        }
                    },
                },
            }
        },
    }
}

/// An opened dictionary: the decoded header fields, the sorted keyword
/// index, the record-index table, the raw record-data section, the
/// caller's key-folding policy, and the optional insertion-only cache of
/// decoded record blocks, one slot per block.
pub struct Mdx<K: KeyMaker> {
    pub codec: Codec,
    pub title: String,
    pub encrypted: u8,
    pub key_entries: Vec<KeyEntry>,
    pub records_info: Vec<BlockEntryInfo>,
    pub record_data: Vec<u8>,
    pub key_maker: K,
    pub resource: bool,
    pub record_cache: Option<Vec<Option<Vec<u8>>>>,
}

impl<K: KeyMaker> Mdx<K> {
    /// The handle's invariant: the index is sorted, the record table's
    /// running totals fit the machine word, and every cached block equals
    /// what decoding its block yields.
    pub open spec fn wf(&self) -> bool {
        &&& entries_sorted(self.key_entries@)
        &&& cum_comp(self.records_info@, self.records_info@.len() as int) <= usize::MAX
        &&& cum_decomp(self.records_info@, self.records_info@.len() as int) <= usize::MAX
        &&& match self.record_cache {
            Option::None => true,
            Option::Some(c) => c@.len() == self.records_info@.len() && (forall|j: int|
                0 <= j < c@.len() ==> ((#[trigger] c@[j]) matches Some(v)
                    ==> record_block_model(self.records_info@, self.record_data@, j) == Result::<
                    Seq<u8>,
                    Error,
                >::Ok(v@))),
        }
    }

    /// The cache only ever grows: every block cached before a call is
    /// still cached, byte for byte, after it, and a handle keeps or lacks
    /// its cache for life.
    pub open spec fn cache_extends(&self, later: &Self) -> bool {
        match (self.record_cache, later.record_cache) {
            (Option::None, Option::None) => true,
            (Option::Some(c0), Option::Some(c1)) => c1@.len() == c0@.len() && (forall|j: int|
                0 <= j < c0@.len() ==> ((#[trigger] c0@[j]) matches Some(v) ==> (c1@[j] matches
                Some(w) && w@ == v@))),
            _ => false,
        }
    }

    /// The immutable state a lookup's result is a function of.
    pub open spec fn same_core(&self, other: &Self) -> bool {
        &&& self.key_entries@ == other.key_entries@
        &&& self.records_info@ == other.records_info@
        &&& self.record_data@ == other.record_data@
        &&& self.codec == other.codec
        &&& self.title@ == other.title@
        &&& self.encrypted == other.encrypted
        &&& self.resource == other.resource
    }

    /// The dictionary's title.
    pub fn title(&self) -> (r: &String)
        ensures
            r@ == self.title@,
    {
        &self.title
    }

    /// The keyword codec the dictionary stores.
    pub fn encoding(&self) -> (r: &Codec)
        ensures
            codec_matches(*r, self.codec),
    {
        proof {
            crate::dict::lemma_codec_matches_self(self.codec);
        }
        &self.codec
    }

    /// The header's encryption hint.
    pub fn encrypted(&self) -> (r: u8)
        ensures
            r == self.encrypted,
    {
        self.encrypted
    }

    /// Folds the query through the key maker, then looks the folded key
    /// up.
    pub fn lookup(&mut self, key: &str) -> (r: Result<Option<Vec<u8>>, Error>)
        requires
            old(self).wf(),
        ensures
            final(self).wf(),
            final(self).same_core(old(self)),
            final(self).key_maker == old(self).key_maker,
            old(self).cache_extends(final(self)),
            ({
                let m = lookup_model(
                    old(self).key_entries@,
                    old(self).records_info@,
                    old(self).record_data@,
                    encode_utf8(old(self).key_maker.make_spec(key@, old(self).resource)),
                );
                &&& (r is Ok <==> m is Ok)
                &&& (r matches Ok(o) ==> (m matches Ok(mo) && (o matches Some(v) ==> mo
                    == Option::Some(v@)) && (o is None ==> mo is None)))
                &&& (r matches Err(e) ==> (m matches Err(me) && e == me))
            }),
    {
        let folded = self.key_maker.make(key, self.resource);
        lookup_record(self, folded.as_str())
    }
}

pub proof fn lemma_codec_matches_self(c: Codec)
    ensures
        codec_matches(c, c),
{
}

proof fn lemma_find_key_at(entries: Seq<KeyEntry>, key: Seq<u8>, i: int, m: int)
    requires
        0 <= i <= m <= entries.len(),
        forall|k: int| i <= k < m ==> (#[trigger] entries[k].text@) != key,
    ensures
        m < entries.len() && entries[m].text@ == key ==> find_key(entries, key, i) == Some(m),
        m == entries.len() && (forall|k: int|
            m <= k < entries.len() ==> (#[trigger] entries[k].text@) != key) ==> find_key(
            entries,
            key,
            i,
        ) is None,
    decreases m - i,
{
    if i < m {
        lemma_find_key_at(entries, key, i + 1, m);
    }
}

/// Finds the first entry whose text is exactly `key` by binary search over
/// the sorted index.
pub fn binary_search_key(entries: &Vec<KeyEntry>, key: &Vec<u8>) -> (r: Option<usize>)
    requires
        entries_sorted(entries@),
    ensures
        r matches Some(i) ==> find_key(entries@, key@, 0) == Some(i as int) && i < entries@.len()
            && entries@[i as int].text@ == key@,
        r is None ==> find_key(entries@, key@, 0) is None,
{
    let mut lo: usize = 0;
    let mut hi: usize = entries.len();
    while lo < hi
        invariant
            entries_sorted(entries@),
            lo <= hi <= entries@.len(),
            forall|k: int| 0 <= k < lo ==> !bytes_le(key@, (#[trigger] entries@[k].text@)),
            forall|k: int| hi <= k < entries@.len() ==> bytes_le(key@, (#[trigger] entries@[k].text@)),
        decreases hi - lo,
    {
        let mid = lo + (hi - lo) / 2;
        if bytes_le_exec(key, &entries[mid].text) {
            proof {
                assert forall|k: int|
                    mid <= k < entries@.len() implies bytes_le(
                    key@,
                    (#[trigger] entries@[k].text@),
                ) by {
                    if mid < k {
                        lemma_bytes_le_trans(key@, entries@[mid as int].text@, entries@[k].text@);
                    }
                }
            }
            hi = mid;
        } else {
            proof {
                assert forall|k: int| 0 <= k <= mid implies !bytes_le(
                    key@,
                    (#[trigger] entries@[k].text@),
                ) by {
                    lemma_bytes_le_total(key@, entries@[k].text@);
                    lemma_bytes_le_total(key@, entries@[mid as int].text@);
                    if k < mid {
                        if bytes_le(key@, entries@[k].text@) {
                            lemma_bytes_le_trans(key@, entries@[k].text@, entries@[mid as int].text@);
                        }
                    }
                }
            }
            lo = mid + 1;
        }
    }
    if lo < entries.len() && bytes_eq_exec(&entries[lo].text, key) {
        proof {
            assert forall|k: int| 0 <= k < lo implies (#[trigger] entries@[k].text@) != key@ by {
                lemma_bytes_le_total(key@, entries@[k].text@);
            }
            lemma_find_key_at(entries@, key@, 0, lo as int);
        }
        Some(lo)
    } else {
        proof {
            assert forall|k: int| 0 <= k < entries@.len() implies (#[trigger] entries@[k].text@)
                != key@ by {
                lemma_bytes_le_total(key@, entries@[k].text@);
                if lo <= k && (lo as int) < entries@.len() {
                    if entries@[k].text@ == key@ {
                        assert(bytes_le(entries@[lo as int].text@, entries@[k].text@));
                        lemma_bytes_le_trans(key@, entries@[lo as int].text@, entries@[k].text@);
                        lemma_bytes_le_total(key@, entries@[lo as int].text@);
                        assert(entries@[lo as int].text@ == key@);
                    }
                }
            }
            lemma_find_key_at(entries@, key@, 0, entries@.len() as int);
        }
        None
    }
}

fn bytes_eq_exec(a: &Vec<u8>, b: &Vec<u8>) -> (r: bool)
    ensures
        r == (a@ == b@),
{
    if a.len() != b.len() {
        proof {
            assert(a@ != b@);
        }
        return false;
    }
    let mut i: usize = 0;
    while i < a.len()
        invariant
            a@.len() == b@.len(),
            i <= a@.len(),
            forall|k: int| 0 <= k < i ==> a@[k] == b@[k],
        decreases a@.len() - i,
    {
        if a[i] != b[i] {
            return false;
        }
        i = i + 1;
    }
    proof {
        assert(a@ =~= b@);
    }
    true
}

/// Reads, decodes and checks the record block at index `j`, through the
/// cache where the handle carries one: a cached block is returned as it
/// is, a missing one is decoded and inserted, and a handle without a cache
/// decodes every time. Either way the caller gets the bytes of the
/// record's tail of the decompressed block.
fn find_definition<K: KeyMaker>(mdx: &mut Mdx<K>, j: usize, offset: RecordOffset) -> (r: Result<
    Vec<u8>,
    Error,
>)
    requires
        old(mdx).wf(),
        j < old(mdx).records_info@.len(),
        offset.buf_offset == cum_comp(old(mdx).records_info@, j as int),
        offset.record_size == old(mdx).records_info@[j as int].compressed_size,
        offset.decomp_size == old(mdx).records_info@[j as int].decompressed_size,
    ensures
        final(mdx).wf(),
        final(mdx).same_core(old(mdx)),
        final(mdx).key_maker == old(mdx).key_maker,
        old(mdx).cache_extends(final(mdx)),
        (old(mdx).record_cache is Some && r is Ok) ==> (final(mdx).record_cache matches Some(c)
            && (c@[j as int] matches Some(v) && record_block_model(
            old(mdx).records_info@,
            old(mdx).record_data@,
            j as int,
        ) == Result::<Seq<u8>, Error>::Ok(v@))),
        ({
            let m = record_block_model(old(mdx).records_info@, old(mdx).record_data@, j as int);
            match m {
                Result::Err(e0) => (r matches Err(e) && e == e0),
                Result::Ok(plain) => if offset.block_offset <= plain.len() {
                    r matches Ok(v) && v@ == plain.subrange(
                        offset.block_offset as int,
                        plain.len() as int,
                    )
                } else {
                    r matches Err(e) && e is InvalidData
                },
            }
        }),
{
    let ghost infos = mdx.records_info@;
    let ghost data = mdx.record_data@;
    let cs = offset.record_size;
    let bo = offset.buf_offset;
    proof {
        lemma_cum_comp_mono(infos, j as int, infos.len() as int);
        lemma_cum_comp_mono(infos, j + 1, infos.len() as int);
        assert(cum_comp(infos, j + 1) == cum_comp(infos, j as int) + cs);
    }
    let use_cache = match &mdx.record_cache {
        Some(_) => true,
        None => false,
    };
    if use_cache {
        let hit = match &mdx.record_cache {
            Some(c) => {
                match &c[j] {
                    Some(v) => Some(slice_to_vec(v.as_slice())),
                    None => None,
                }
            },
            None => None,
        };
        match hit {
            Some(plain) => {
                if offset.block_offset > plain.len() {
                    return Err(Error::InvalidData);
                }
                return Ok(
                    slice_to_vec(slice_subrange(plain.as_slice(), offset.block_offset, plain.len())),
                );
            },
            None => (),
        }
    }
    if cs < 8 || mdx.record_data.len() < cs || bo > mdx.record_data.len() - cs {
        return Err(Error::InvalidData);
    }
    let blockslice = slice_subrange(mdx.record_data.as_slice(), bo, bo + cs);
    proof {
        assert(blockslice@ =~= data.subrange(bo as int, bo + cs));
    }
    let plain = match decode_block(blockslice, cs, offset.decomp_size) {
        Ok(v) => v,
        Err(e) => {
            return Err(e);
        },
    };
    if use_cache {
        let copy = slice_to_vec(plain.as_slice());
        match &mut mdx.record_cache {
            Some(c) => {
                let ghost c0 = c@;
                c.set(j, Some(copy));
                proof {
                    assert forall|k: int|
                        0 <= k < c@.len() implies ((#[trigger] c@[k]) matches Some(v)
                        ==> record_block_model(infos, data, k) == Result::<Seq<u8>, Error>::Ok(
                        v@,
                    )) by {
                        if k != j {
                            assert(c@[k] == c0[k]);
                        }
                    }
                }
            },
            None => (),
        }
    }
    if offset.block_offset > plain.len() {
        return Err(Error::InvalidData);
    }
    Ok(slice_to_vec(slice_subrange(plain.as_slice(), offset.block_offset, plain.len())))
}

/// Looks an already-normalised key up: binary search in the sorted index,
/// record-block location, block decoding (through the cache where one is
/// carried), and the record's slice of the decompressed block.
pub fn lookup_record<K: KeyMaker>(mdx: &mut Mdx<K>, key: &str) -> (r: Result<
    Option<Vec<u8>>,
    Error,
>)
    requires
        old(mdx).wf(),
    ensures
        final(mdx).wf(),
        final(mdx).same_core(old(mdx)),
        final(mdx).key_maker == old(mdx).key_maker,
        old(mdx).cache_extends(final(mdx)),
        ({
            let m = lookup_model(
                old(mdx).key_entries@,
                old(mdx).records_info@,
                old(mdx).record_data@,
                encode_utf8(key@),
            );
            &&& (r is Ok <==> m is Ok)
            &&& (r matches Ok(o) ==> (m matches Ok(mo) && (o matches Some(v) ==> mo
                == Option::Some(v@)) && (o is None ==> mo is None)))
            &&& (r matches Err(e) ==> (m matches Err(me) && e == me))
        }),
{
    let kb: Vec<u8> = slice_to_vec(key.as_bytes());
    let idx = match binary_search_key(&mdx.key_entries, &kb) {
        Some(i) => i,
        None => {
            return Ok(None);
        },
    };
    let offset = mdx.key_entries[idx].offset;
    let located = match locate_record(&mdx.records_info, offset) {
        Some(p) => p,
        None => {
            return Ok(None);
        },
    };
    let (j, ro) = located;
    match find_definition(mdx, j, ro) {
        Ok(v) => Ok(Some(v)),
        Err(e) => Err(e),
    }
}

/// Cache transparency: what a lookup returns is a function of the index,
/// the record table and the record bytes alone, so two handles that share
/// those agree on every key, whatever their caches hold.
pub proof fn lemma_cache_transparency<K: KeyMaker>(a: Mdx<K>, b: Mdx<K>, key: Seq<u8>)
    requires
        a.same_core(&b),
    ensures
        lookup_model(a.key_entries@, a.records_info@, a.record_data@, key) == lookup_model(
            b.key_entries@,
            b.records_info@,
            b.record_data@,
            key,
        ),
{
}

/// A sorted index without repeated headwords is unique: two sorted
/// sequences of `(offset, text)` pairs holding the same pairs, with no
/// text stored twice, are equal position by position.
pub proof fn lemma_sorted_distinct_unique(s1: Seq<(int, Seq<u8>)>, s2: Seq<(int, Seq<u8>)>)
    requires
        forall|i: int, j: int|
            0 <= i < j < s1.len() ==> bytes_le(#[trigger] s1[i].1, #[trigger] s1[j].1),
        forall|i: int, j: int|
            0 <= i < j < s2.len() ==> bytes_le(#[trigger] s2[i].1, #[trigger] s2[j].1),
        forall|i: int, j: int| 0 <= i < j < s1.len() ==> (#[trigger] s1[i].1) != (#[trigger] s1[j].1),
        s1.to_multiset() == s2.to_multiset(),
    ensures
        s1 == s2,
    decreases s1.len(),
{
    s1.to_multiset_ensures();
    s2.to_multiset_ensures();
    if s1.len() == 0 {
        assert(s1 =~= s2);
    } else {
        assert(s2.contains(s2[0])) by {
            assert(0 <= 0 < s2.len() && s2[0] == s2[0]);
        }
        assert(s1.to_multiset().count(s2[0]) > 0);
        assert(s1.contains(s2[0]));
        let k = choose|k: int| 0 <= k < s1.len() && s1[k] == s2[0];
        assert(s1.contains(s1[0])) by {
            assert(0 <= 0 < s1.len() && s1[0] == s1[0]);
        }
        assert(s2.to_multiset().count(s1[0]) > 0);
        assert(s2.contains(s1[0]));
        let k2 = choose|k2: int| 0 <= k2 < s2.len() && s2[k2] == s1[0];
        lemma_bytes_le_total(s1[0].1, s2[0].1);
        assert(bytes_le(s1[0].1, s2[0].1)) by {
            if k > 0 {
                assert(bytes_le(s1[0].1, s1[k].1));
            } else {
                lemma_bytes_le_total(s1[0].1, s1[0].1);
            }
        }
        assert(bytes_le(s2[0].1, s1[0].1)) by {
            if k2 > 0 {
                assert(bytes_le(s2[0].1, s2[k2].1));
            } else {
                lemma_bytes_le_total(s2[0].1, s2[0].1);
            }
        }
        assert(s1[0].1 == s2[0].1);
        assert(k == 0) by {
            if k > 0 {
                assert(s1[0].1 != s1[k].1);
            }
        }
        assert(s1[0] == s2[0]);
        let t1 = s1.drop_first();
        let t2 = s2.drop_first();
        assert(t1 =~= s1.remove(0));
        assert(t2 =~= s2.remove(0));
        assert(s1.remove(0).to_multiset() =~= s1.to_multiset().remove(s1[0]));
        assert(s2.remove(0).to_multiset() =~= s2.to_multiset().remove(s2[0]));
        assert(t1.to_multiset() == t2.to_multiset());
        assert(forall|i: int| 0 <= i < t1.len() ==> #[trigger] t1[i] == s1[i + 1]);
        assert(forall|i: int| 0 <= i < t2.len() ==> #[trigger] t2[i] == s2[i + 1]);
        lemma_sorted_distinct_unique(t1, t2);
        assert forall|i: int| 0 <= i < s1.len() implies s1[i] == s2[i] by {
            if i > 0 {
                assert(t1[i - 1] == s1[i]);
                assert(t2[i - 1] == s2[i]);
                assert(t1[i - 1] == t2[i - 1]);
            }
        }
        assert(s1 =~= s2);
    }
}

proof fn lemma_find_key_bounds(entries: Seq<KeyEntry>, key: Seq<u8>, i: int)
    requires
        0 <= i,
    ensures
        find_key(entries, key, i) matches Some(f) ==> i <= f < entries.len(),
    decreases entries.len() - i,
{
    if i < entries.len() && entries[i].text@ != key {
        lemma_find_key_bounds(entries, key, i + 1);
    }
}

proof fn lemma_find_key_view(e1: Seq<KeyEntry>, e2: Seq<KeyEntry>, key: Seq<u8>, i: int)
    requires
        entries_view(e1) == entries_view(e2),
        0 <= i,
    ensures
        find_key(e1, key, i) == find_key(e2, key, i),
    decreases e1.len() - i,
{
    assert(e1.len() == entries_view(e1).len());
    assert(e2.len() == entries_view(e2).len());
    if i < e1.len() {
        assert(entries_view(e1)[i] == (e1[i].offset as int, e1[i].text@));
        assert(entries_view(e2)[i] == (e2[i].offset as int, e2[i].text@));
        if e1[i].text@ != key {
            lemma_find_key_view(e1, e2, key, i + 1);
        }
    }
}

/// Load transparency: two handles whose sorted indexes hold the same
/// `(offset, text)` pairs — no headword stored twice — over the same
/// record table and record bytes answer every key alike, whatever their
/// caches hold; two loads of the same file bytes yield such handles.
/// (With a headword stored twice the two indexes may order the duplicates
/// differently, and either record is acceptable.)
pub proof fn lemma_load_transparency<K: KeyMaker>(a: Mdx<K>, b: Mdx<K>, key: Seq<u8>)
    requires
        entries_sorted(a.key_entries@),
        entries_sorted(b.key_entries@),
        entries_view(a.key_entries@).to_multiset() == entries_view(b.key_entries@).to_multiset(),
        forall|i: int, j: int|
            0 <= i < j < a.key_entries@.len() ==> (#[trigger] a.key_entries@[i].text@) != (
            #[trigger] a.key_entries@[j].text@),
        a.records_info@ == b.records_info@,
        a.record_data@ == b.record_data@,
    ensures
        lookup_model(a.key_entries@, a.records_info@, a.record_data@, key) == lookup_model(
            b.key_entries@,
            b.records_info@,
            b.record_data@,
            key,
        ),
{
    let v1 = entries_view(a.key_entries@);
    let v2 = entries_view(b.key_entries@);
    assert(forall|i: int|
        0 <= i < a.key_entries@.len() ==> #[trigger] v1[i] == (
        a.key_entries@[i].offset as int,
        a.key_entries@[i].text@,
    ));
    assert(forall|i: int|
        0 <= i < b.key_entries@.len() ==> #[trigger] v2[i] == (
        b.key_entries@[i].offset as int,
        b.key_entries@[i].text@,
    ));
    lemma_sorted_distinct_unique(v1, v2);
    lemma_find_key_view(a.key_entries@, b.key_entries@, key, 0);
    lemma_find_key_bounds(a.key_entries@, key, 0);
    match find_key(a.key_entries@, key, 0) {
        Option::None => {},
        Option::Some(i0) => {
            assert(v1[i0] == v2[i0]);
            assert(a.key_entries@[i0].offset == b.key_entries@[i0].offset);
        },
    }
}

/// Idempotent lookup: a lookup leaves the index, the record table and the
/// record bytes as they were, so the same key looked up twice in a row
/// yields the same result.
pub proof fn lemma_lookup_idempotent<K: KeyMaker>(before: Mdx<K>, after: Mdx<K>, key: Seq<u8>)
    requires
        after.same_core(&before),
    ensures
        lookup_model(after.key_entries@, after.records_info@, after.record_data@, key)
            == lookup_model(before.key_entries@, before.records_info@, before.record_data@, key),
{
}

/// Binary-search totality: a headword that stands in the index is found,
/// and where its record block exists, decodes, and covers the record's
/// offset strictly, the lookup returns its bytes, and they are not empty.
pub proof fn lemma_lookup_totality<K: KeyMaker>(m: Mdx<K>, i: int)
    requires
        0 <= i < m.key_entries@.len(),
        ({
            let key = m.key_entries@[i].text@;
            let i0 = find_key(m.key_entries@, key, 0).unwrap();
            let off = m.key_entries@[i0].offset as int;
            &&& locate_block(m.records_info@, off, 0) is Some
            &&& ({
                let j = locate_block(m.records_info@, off, 0).unwrap();
                match record_block_model(m.records_info@, m.record_data@, j) {
                    Result::Ok(plain) => off - cum_decomp(m.records_info@, j) < plain.len(),
                    Result::Err(_) => false,
                }
            })
        }),
    ensures
        ({
            let r = lookup_model(
                m.key_entries@,
                m.records_info@,
                m.record_data@,
                m.key_entries@[i].text@,
            );
            r matches Ok(o) && (o matches Some(v) && v.len() > 0)
        }),
{
    let key = m.key_entries@[i].text@;
    lemma_find_key_some(m.key_entries@, key, 0, i);
    let i0 = find_key(m.key_entries@, key, 0).unwrap();
    let off = m.key_entries@[i0].offset as int;
    let j = locate_block(m.records_info@, off, 0).unwrap();
    lemma_locate_block_covers(m.records_info@, off, 0);
    let plain = record_block_model(m.records_info@, m.record_data@, j).unwrap();
    assert(plain.subrange(off - cum_decomp(m.records_info@, j), plain.len() as int).len() > 0);
}

/// A located block covers the offset: its decompressed span starts at or
/// before it and ends past it.
pub proof fn lemma_locate_block_covers(infos: Seq<BlockEntryInfo>, off: int, i: int)
    requires
        0 <= i,
        cum_decomp(infos, i) <= off,
    ensures
        locate_block(infos, off, i) matches Some(j) ==> i <= j < infos.len() && cum_decomp(
            infos,
            j,
        ) <= off < cum_decomp(infos, j + 1),
    decreases infos.len() - i,
{
    if i < infos.len() && !(off < cum_decomp(infos, i + 1)) {
        lemma_locate_block_covers(infos, off, i + 1);
    }
}

/// Duplicate headwords: a key that stands at index `i` is found, at `i`
/// itself or at an earlier index holding the same normalised text; the
/// lookup resolves through that first match.
pub proof fn lemma_find_key_some(entries: Seq<KeyEntry>, key: Seq<u8>, s: int, i: int)
    requires
        0 <= s <= i < entries.len(),
        entries[i].text@ == key,
    ensures
        find_key(entries, key, s) is Some,
        find_key(entries, key, s) matches Some(f) && s <= f <= i && entries[f].text@ == key,
    decreases i - s,
{
    if entries[s].text@ != key {
        lemma_find_key_some(entries, key, s + 1, i);
    }
}

/// The record-slice extent: where the located block decodes to exactly its
/// declared decompressed size and strictly covers the offset, the lookup
/// returns the decompressed bytes from the record's position to the
/// block's end - exactly decompressed size minus record offset many.
pub proof fn lemma_lookup_extent<K: KeyMaker>(m: Mdx<K>, i: int)
    requires
        0 <= i < m.key_entries@.len(),
        ({
            let key = m.key_entries@[i].text@;
            let i0 = find_key(m.key_entries@, key, 0).unwrap();
            let off = m.key_entries@[i0].offset as int;
            &&& locate_block(m.records_info@, off, 0) is Some
            &&& ({
                let j = locate_block(m.records_info@, off, 0).unwrap();
                match record_block_model(m.records_info@, m.record_data@, j) {
                    Result::Ok(plain) => plain.len() == m.records_info@[j].decompressed_size && off
                        - cum_decomp(m.records_info@, j) < plain.len(),
                    Result::Err(_) => false,
                }
            })
        }),
    ensures
        ({
            let key = m.key_entries@[i].text@;
            let i0 = find_key(m.key_entries@, key, 0).unwrap();
            let off = m.key_entries@[i0].offset as int;
            let j = locate_block(m.records_info@, off, 0).unwrap();
            let plain = record_block_model(m.records_info@, m.record_data@, j).unwrap();
            let bo = off - cum_decomp(m.records_info@, j);
            let r = lookup_model(m.key_entries@, m.records_info@, m.record_data@, key);
            &&& m.key_entries@[i0].text@ == key
            &&& 0 <= i0 <= i
            &&& r == Result::<Option<Seq<u8>>, Error>::Ok(Option::Some(
                plain.subrange(bo, plain.len() as int),
            ))
            &&& plain.subrange(bo, plain.len() as int).len() == m.records_info@[
                j
            ].decompressed_size - bo
        }),
{
    let key = m.key_entries@[i].text@;
    lemma_find_key_some(m.key_entries@, key, 0, i);
    let off = m.key_entries@[find_key(m.key_entries@, key, 0).unwrap()].offset as int;
    lemma_locate_block_covers(m.records_info@, off, 0);
}


/// Whether loading the whole container from `d` succeeds: the header, the
/// key-block header, the key-block-info table, the key blocks and the
/// record-index table must all parse in turn.
pub open spec fn load_success(d: Seq<u8>, default_codec: Codec) -> bool {
    if !crate::header::header_success(d, 0) {
        false
    } else {
        let hl = be_val(d.subrange(0, 4));
        let hend = 8 + hl;
        let at = crate::header::header_attrs(d.subrange(4, 4 + hl));
        let tver = crate::header::trimmed(
            crate::attrs::attr_get(at, "GeneratedByEngineVersion"@).unwrap(),
        );
        let v1 = crate::header::char_digit(tver[0]) == 1;
        let ver = if v1 {
            Version::V1
        } else {
            Version::V2
        };
        let s2 = if v1 {
            hend + 16 <= d.len()
        } else {
            hend + 44 <= d.len() && crate::checksum::adler32_of(d.subrange(hend, hend + 40))
                == be_val(d.subrange(hend + 40, hend + 44)) && be_val(
                d.subrange(hend + 24, hend + 32),
            ) <= usize::MAX && be_val(d.subrange(hend + 32, hend + 40)) <= usize::MAX
        };
        if !s2 {
            false
        } else {
            let kbh_end = hend + (if v1 {
                16int
            } else {
                44int
            });
            let bis = if v1 {
                be_val(d.subrange(hend + 8, hend + 12))
            } else {
                be_val(d.subrange(hend + 24, hend + 32))
            };
            let kbs = if v1 {
                be_val(d.subrange(hend + 12, hend + 16))
            } else {
                be_val(d.subrange(hend + 32, hend + 40))
            };
            let info_end = kbh_end + bis;
            let keys_end = info_end + kbs;
            let enc = crate::attrs::attr_get(at, "Encoding"@);
            let enc_default = enc is None || enc.unwrap().len() == 0;
            let cod_utf16 = if enc_default {
                default_codec is Utf16Le
            } else {
                crate::text::whatwg_label(enc.unwrap()) == Some("UTF-16LE"@)
            };
            let cod_utf8 = if enc_default {
                default_codec is Utf8
            } else {
                crate::text::whatwg_label(enc.unwrap()) == Some("UTF-8"@)
            };
            let infom = crate::keyload::key_info_plain_model(
                d.subrange(kbh_end, info_end),
                ver,
                crate::header::encrypted_of(at),
            );
            let s3 = info_end <= d.len() && infom is Ok && crate::keyload::info_entries_from(
                infom.unwrap(),
                0,
                ver,
                cod_utf16,
            ) is Some;
            if !s3 {
                false
            } else {
                let infos = crate::keyload::info_entries_from(
                    infom.unwrap(),
                    0,
                    ver,
                    cod_utf16,
                ).unwrap();
                let km = key_blocks_model(d.subrange(info_end, keys_end), infos, ver, cod_utf16);
                let s4 = keys_end <= d.len() && km is Ok && (cod_utf16 || cod_utf8
                    || km.unwrap().len() == 0);
                if !s4 {
                    false
                } else {
                    let w = crate::bytes::num_width(ver);
                    let base = keys_end + 4 * w;
                    let n = be_val(d.subrange(keys_end, keys_end + w));
                    let tbl = crate::records::record_table(d, base, w, n);
                    &&& keys_end + 4 * w <= d.len()
                    &&& n <= usize::MAX
                    &&& be_val(d.subrange(keys_end + w, keys_end + 2 * w)) <= usize::MAX
                    &&& be_val(d.subrange(keys_end + 2 * w, keys_end + 3 * w)) <= usize::MAX
                    &&& be_val(d.subrange(keys_end + 3 * w, keys_end + 4 * w)) <= usize::MAX
                    &&& base + 2 * w * n <= d.len()
                    &&& crate::records::pairs_fit(d, base, w, n)
                    &&& cum_comp(tbl, n) <= usize::MAX
                    &&& cum_decomp(tbl, n) <= usize::MAX
                }
            }
        }
    }
}

/// Which error a failed load carries: the first failing stage names it,
/// exactly as that stage's own contract does.
pub open spec fn load_error_matches(d: Seq<u8>, default_codec: Codec, e: Error) -> bool {
    if !crate::header::header_success(d, 0) {
        crate::header::header_error_matches(d, 0, e)
    } else {
        let hl = be_val(d.subrange(0, 4));
        let hend = 8 + hl;
        let at = crate::header::header_attrs(d.subrange(4, 4 + hl));
        let tver = crate::header::trimmed(
            crate::attrs::attr_get(at, "GeneratedByEngineVersion"@).unwrap(),
        );
        let v1 = crate::header::char_digit(tver[0]) == 1;
        let ver = if v1 {
            Version::V1
        } else {
            Version::V2
        };
        let s2 = if v1 {
            hend + 16 <= d.len()
        } else {
            hend + 44 <= d.len() && crate::checksum::adler32_of(d.subrange(hend, hend + 40))
                == be_val(d.subrange(hend + 40, hend + 44)) && be_val(
                d.subrange(hend + 24, hend + 32),
            ) <= usize::MAX && be_val(d.subrange(hend + 32, hend + 40)) <= usize::MAX
        };
        if !s2 {
            if !v1 && hend + 44 <= d.len() && crate::checksum::adler32_of(
                d.subrange(hend, hend + 40),
            ) != be_val(d.subrange(hend + 40, hend + 44)) {
                e == Error::InvalidCheckSum(Section::KeyBlockHeader)
            } else {
                e is InvalidData
            }
        } else {
            let kbh_end = hend + (if v1 {
                16int
            } else {
                44int
            });
            let bis = if v1 {
                be_val(d.subrange(hend + 8, hend + 12))
            } else {
                be_val(d.subrange(hend + 24, hend + 32))
            };
            let kbs = if v1 {
                be_val(d.subrange(hend + 12, hend + 16))
            } else {
                be_val(d.subrange(hend + 32, hend + 40))
            };
            let info_end = kbh_end + bis;
            let keys_end = info_end + kbs;
            let enc = crate::attrs::attr_get(at, "Encoding"@);
            let enc_default = enc is None || enc.unwrap().len() == 0;
            let cod_utf16 = if enc_default {
                default_codec is Utf16Le
            } else {
                crate::text::whatwg_label(enc.unwrap()) == Some("UTF-16LE"@)
            };
            let cod_utf8 = if enc_default {
                default_codec is Utf8
            } else {
                crate::text::whatwg_label(enc.unwrap()) == Some("UTF-8"@)
            };
            let infom = crate::keyload::key_info_plain_model(
                d.subrange(kbh_end, info_end),
                ver,
                crate::header::encrypted_of(at),
            );
            let s3 = info_end <= d.len() && infom is Ok && crate::keyload::info_entries_from(
                infom.unwrap(),
                0,
                ver,
                cod_utf16,
            ) is Some;
            if !s3 {
                if info_end > d.len() {
                    e is InvalidData
                } else {
                    match infom {
                        Result::Err(e0) => e == e0,
                        Result::Ok(_) => e is InvalidData,
                    }
                }
            } else {
                let infos = crate::keyload::info_entries_from(
                    infom.unwrap(),
                    0,
                    ver,
                    cod_utf16,
                ).unwrap();
                let km = key_blocks_model(d.subrange(info_end, keys_end), infos, ver, cod_utf16);
                let s4 = keys_end <= d.len() && km is Ok && (cod_utf16 || cod_utf8
                    || km.unwrap().len() == 0);
                if !s4 {
                    if keys_end > d.len() {
                        e is InvalidData
                    } else if cod_utf16 || cod_utf8 {
                        km matches Err(e0) && e == e0
                    } else {
                        true
                    }
                } else {
                    e is InvalidData
                }
            }
        }
    }
}

/// Builds the dictionary handle: header, key-block header, key-block-info
/// table, key entries, and record index, in file order; the bytes that
/// follow are the record-data section. The reader's codec is the header's
/// where it names one, else the caller's default.
pub fn load<K: KeyMaker>(
    data: Vec<u8>,
    default_codec: &Codec,
    cache: bool,
    key_maker: K,
    resource: bool,
) -> (r: Result<Mdx<K>, Error>)
    ensures
        r is Ok <==> load_success(data@, *default_codec),
        r matches Err(e) ==> load_error_matches(data@, *default_codec, e),
        r matches Ok(m) ==> ({
            let d = data@;
            let hl = be_val(d.subrange(0, 4));
            let hend = 8 + hl;
            let at = crate::header::header_attrs(d.subrange(4, 4 + hl));
            let tver = crate::header::trimmed(
                crate::attrs::attr_get(at, "GeneratedByEngineVersion"@).unwrap(),
            );
            let v1 = crate::header::char_digit(tver[0]) == 1;
            let ver = if v1 {
                Version::V1
            } else {
                Version::V2
            };
            let kbh_end = hend + (if v1 {
                16int
            } else {
                44int
            });
            let bis = if v1 {
                be_val(d.subrange(hend + 8, hend + 12))
            } else {
                be_val(d.subrange(hend + 24, hend + 32))
            };
            let kbs = if v1 {
                be_val(d.subrange(hend + 12, hend + 16))
            } else {
                be_val(d.subrange(hend + 32, hend + 40))
            };
            let info_end = kbh_end + bis;
            let keys_end = info_end + kbs;
            let utf16 = m.codec is Utf16Le;
            let w = crate::bytes::num_width(ver);
            let rn = be_val(d.subrange(keys_end, keys_end + w));
            let rec_end = keys_end + 4 * w + 2 * w * rn;
            let enc = crate::attrs::attr_get(at, "Encoding"@);
            let enc_default = enc is None || enc.unwrap().len() == 0;
            &&& m.wf()
            &&& (m.record_cache is Some) == cache
            &&& (m.record_cache matches Some(c) ==> c@.len() == m.records_info@.len() && (forall|
                j: int,
            | 0 <= j < c@.len() ==> (#[trigger] c@[j]) is None))
            &&& m.resource == resource
            &&& m.key_maker == key_maker
            &&& m.title@ == crate::header::trimmed(crate::attrs::attr_get(at, "Title"@).unwrap())
            &&& m.encrypted == crate::header::encrypted_of(at)
            &&& (enc_default ==> codec_matches(m.codec, *default_codec))
            &&& (!enc_default ==> match m.codec {
                Codec::Utf16Le => crate::text::whatwg_label(enc.unwrap()) == Some("UTF-16LE"@),
                Codec::Utf8 => crate::text::whatwg_label(enc.unwrap()) == Some("UTF-8"@),
                Codec::Other(name) => crate::text::whatwg_label(enc.unwrap()) == Some(name@),
            })
            &&& m.records_info@.len() == rn
            &&& m.records_info@ == crate::records::record_table(d, keys_end + 4 * w, w, rn)
            &&& m.record_data@ == d.subrange(rec_end, d.len() as int)
            &&& ({
                let infom = crate::keyload::key_info_plain_model(
                    d.subrange(kbh_end, info_end),
                    ver,
                    m.encrypted,
                );
                &&& infom is Ok
                &&& ({
                    let infos = crate::keyload::info_entries_from(infom.unwrap(), 0, ver, utf16);
                    &&& infos is Some
                    &&& ((m.codec is Utf16Le || m.codec is Utf8) ==> ({
                        let kmodel = key_blocks_model(
                            d.subrange(info_end, keys_end),
                            infos.unwrap(),
                            ver,
                            utf16,
                        );
                        &&& kmodel is Ok
                        &&& entries_view(m.key_entries@).to_multiset() == normalized_entries(
                            kmodel.unwrap(),
                            &key_maker,
                            resource,
                        ).to_multiset()
                    }))
                })
            })
        }),
{
    let mut pos: usize = 0;
    let header = match read_header(data.as_slice(), &mut pos, default_codec) {
        Ok(h) => h,
        Err(e) => {
            return Err(e);
        },
    };
    let kb_header = match header.version {
        Version::V1 => match read_key_block_header_v1(data.as_slice(), &mut pos) {
            Ok(h) => h,
            Err(e) => {
                return Err(e);
            },
        },
        Version::V2 => match read_key_block_header_v2(data.as_slice(), &mut pos) {
            Ok(h) => h,
            Err(e) => {
                return Err(e);
            },
        },
    };
    proof {
        let d = data@;
        let hl = be_val(d.subrange(0, 4));
        let at = crate::header::header_attrs(d.subrange(4, 4 + hl));
        let enc = crate::attrs::attr_get(at, "Encoding"@);
        let enc_default = enc is None || enc.unwrap().len() == 0;
        reveal_strlit("UTF-16LE");
        reveal_strlit("UTF-8");
        assert("UTF-16LE"@.len() == 8);
        assert("UTF-8"@.len() == 5);
        assert("UTF-16LE"@ != "UTF-8"@);
        let cod_utf16 = if enc_default {
            *default_codec is Utf16Le
        } else {
            crate::text::whatwg_label(enc.unwrap()) == Some("UTF-16LE"@)
        };
        let cod_utf8 = if enc_default {
            *default_codec is Utf8
        } else {
            crate::text::whatwg_label(enc.unwrap()) == Some("UTF-8"@)
        };
        assert(cod_utf16 == (header.codec is Utf16Le));
        assert(cod_utf8 == (header.codec is Utf8));
    }
    let key_block_infos = match read_key_block_infos(
        data.as_slice(),
        &mut pos,
        kb_header.block_info_size,
        &header,
    ) {
        Ok(v) => v,
        Err(e) => {
            return Err(e);
        },
    };
    let key_entries = match read_key_entries(
        data.as_slice(),
        &mut pos,
        kb_header.key_block_size,
        &header,
        key_block_infos,
        &key_maker,
        resource,
    ) {
        Ok(v) => v,
        Err(e) => {
            return Err(e);
        },
    };
    let records_info = match read_record_blocks(data.as_slice(), &mut pos, &header.version) {
        Ok(v) => v,
        Err(e) => {
            return Err(e);
        },
    };
    let record_data: Vec<u8> = slice_to_vec(slice_subrange(data.as_slice(), pos, data.len()));
    let record_cache: Option<Vec<Option<Vec<u8>>>> = if cache {
        let mut c: Vec<Option<Vec<u8>>> = Vec::new();
        let mut k: usize = 0;
        while k < records_info.len()
            invariant
                k <= records_info@.len(),
                c@.len() == k,
                forall|j: int| 0 <= j < k ==> (#[trigger] c@[j]) is None,
            decreases records_info@.len() - k,
        {
            c.push(None);
            k = k + 1;
        }
        Some(c)
    } else {
        None
    };
    Ok(
        Mdx {
            codec: header.codec,
            title: header.title,
            encrypted: header.encrypted,
            key_entries,
            records_info,
            record_data,
            key_maker,
            resource,
            record_cache,
        },
    )
}

} // verus!
