use vstd::prelude::*;

use crate::bytes::{be_val, num_width};
use crate::{BlockEntryInfo, Error, Version};

verus! {

/// Sum of the compressed sizes of the first `n` record blocks: the file
/// offset, relative to the record-data section, where block `n` starts.
pub open spec fn cum_comp(infos: Seq<BlockEntryInfo>, n: int) -> int
    decreases n,
{
    if n <= 0 {
        0
    } else {
        cum_comp(infos, n - 1) + infos[n - 1].compressed_size
    }
}

/// Sum of the decompressed sizes of the first `n` record blocks: the
/// logical offset where block `n`'s decompressed bytes start.
pub open spec fn cum_decomp(infos: Seq<BlockEntryInfo>, n: int) -> int
    decreases n,
{
    if n <= 0 {
        0
    } else {
        cum_decomp(infos, n - 1) + infos[n - 1].decompressed_size
    }
}

pub proof fn lemma_cum_comp_mono(infos: Seq<BlockEntryInfo>, i: int, n: int)
    requires
        0 <= i <= n <= infos.len(),
    ensures
        0 <= cum_comp(infos, i) <= cum_comp(infos, n),
        0 <= cum_decomp(infos, i) <= cum_decomp(infos, n),
    decreases n,
{
    if n > 0 {
        if i <= n - 1 {
            lemma_cum_comp_mono(infos, i, n - 1);
        } else {
            lemma_cum_comp_mono(infos, 0, n - 1);
        }
    }
}

/// The record block that covers logical offset `off`, scanning from block
/// `i`: the least index whose running decompressed span reaches past
/// `off`.
pub open spec fn locate_block(infos: Seq<BlockEntryInfo>, off: int, i: int) -> Option<int>
    decreases infos.len() - i,
{
    if i >= infos.len() {
        None
    } else if off < cum_decomp(infos, i + 1) {
        Some(i)
    } else {
        locate_block(infos, off, i + 1)
    }
}

/// Where one record lives: the file offset of its compressed block
/// relative to the record-data section, the record's offset inside the
/// decompressed block, and the block's two sizes.
#[derive(Debug, Clone, Copy, PartialEq, Eq, Structural)]
pub struct RecordOffset {
    pub buf_offset: usize,
    pub block_offset: usize,
    pub record_size: usize,
    pub decomp_size: usize,
}

/// The record-index table's size pairs as the bytes at `base` store them,
/// `n` entries of two `w`-byte big-endian integers each.
pub open spec fn record_table(d: Seq<u8>, base: int, w: int, n: int) -> Seq<BlockEntryInfo> {
    Seq::new(
        n as nat,
        |j: int|
            BlockEntryInfo {
                compressed_size: be_val(d.subrange(base + 2 * w * j, base + 2 * w * j + w)) as usize,
                decompressed_size: be_val(
                    d.subrange(base + 2 * w * j + w, base + 2 * w * j + 2 * w),
                ) as usize,
            },
    )
}

/// Every size in the first `n` pairs of the table at `base` fits the
/// machine word.
pub open spec fn pairs_fit(d: Seq<u8>, base: int, w: int, n: int) -> bool
    decreases n,
{
    if n <= 0 {
        true
    } else {
        pairs_fit(d, base, w, n - 1) && be_val(
            d.subrange(base + 2 * w * (n - 1), base + 2 * w * (n - 1) + w),
        ) <= usize::MAX && be_val(
            d.subrange(base + 2 * w * (n - 1) + w, base + 2 * w * (n - 1) + 2 * w),
        ) <= usize::MAX
    }
}

proof fn lemma_pairs_fit_at(d: Seq<u8>, base: int, w: int, n: int, i: int)
    requires
        0 <= i < n,
        pairs_fit(d, base, w, n),
    ensures
        be_val(d.subrange(base + 2 * w * i, base + 2 * w * i + w)) <= usize::MAX,
        be_val(d.subrange(base + 2 * w * i + w, base + 2 * w * i + 2 * w)) <= usize::MAX,
    decreases n,
{
    if i < n - 1 {
        lemma_pairs_fit_at(d, base, w, n - 1, i);
    }
}

/// Reads the record-index table at the cursor: four version-sized counts
/// (only the number of records is used), then that many pairs of
/// compressed and decompressed sizes. It succeeds exactly when the counts
/// and pairs are all present, each fits the machine word, and the two
/// running totals do too.
#[verifier::rlimit(100)]
pub fn read_record_blocks(data: &[u8], pos: &mut usize, version: &Version) -> (r: Result<
    Vec<BlockEntryInfo>,
    Error,
>)
    ensures
        ({
            let p0 = *old(pos) as int;
            let w = num_width(*version);
            let base = p0 + 4 * w;
            let n = be_val(data@.subrange(p0, p0 + w));
            let head_ok = p0 + 4 * w <= data@.len() && n <= usize::MAX && be_val(
                data@.subrange(p0 + w, p0 + 2 * w),
            ) <= usize::MAX && be_val(data@.subrange(p0 + 2 * w, p0 + 3 * w)) <= usize::MAX
                && be_val(data@.subrange(p0 + 3 * w, p0 + 4 * w)) <= usize::MAX;
            let pairs_ok = base + 2 * w * n <= data@.len() && pairs_fit(data@, base, w, n);
            let tbl = record_table(data@, base, w, n);
            let totals_ok = cum_comp(tbl, n) <= usize::MAX && cum_decomp(tbl, n) <= usize::MAX;
            &&& (r is Ok <==> head_ok && pairs_ok && totals_ok)
            &&& (r matches Ok(v) ==> {
                &&& v@ == tbl
                &&& v@.len() == n
                &&& cum_comp(v@, v@.len() as int) <= usize::MAX
                &&& cum_decomp(v@, v@.len() as int) <= usize::MAX
                &&& *final(pos) == base + 2 * w * n
            })
            &&& (r is Err ==> (r matches Err(e) && e is InvalidData))
        }),
{
    let ghost p0 = *old(pos) as int;
    let ghost w = num_width(*version);
    let ghost dl = data@.len() as int;
    let num_records = match version.read_number(data, pos) {
        Ok(v) => v,
        Err(e) => {
            return Err(e);
        },
    };
    // the entry count, the table size and the data size are not needed
    match version.read_number(data, pos) {
        Ok(_) => (),
        Err(e) => {
            return Err(e);
        },
    }
    match version.read_number(data, pos) {
        Ok(_) => (),
        Err(e) => {
            return Err(e);
        },
    }
    match version.read_number(data, pos) {
        Ok(_) => (),
        Err(e) => {
            return Err(e);
        },
    }
    let ghost base = p0 + 4 * w;
    let ghost n = be_val(data@.subrange(p0, p0 + w));
    let ghost tbl = record_table(data@, base, w, n);
    let mut records: Vec<BlockEntryInfo> = Vec::new();
    let mut tot_c: usize = 0;
    let mut tot_d: usize = 0;
    let mut i: usize = 0;
    while i < num_records
        invariant
            p0 == *old(pos) as int,
            w == num_width(*version),
            n == num_records,
            n == be_val(data@.subrange(p0, p0 + w)),
            base == p0 + 4 * w,
            dl == data@.len(),
            p0 + 4 * w <= dl,
            tbl == record_table(data@, base, w, n),
            i <= num_records,
            records@.len() == i,
            *pos == base + 2 * w * i,
            *pos <= dl,
            pairs_fit(data@, base, w, i as int),
            forall|j: int| 0 <= j < i ==> #[trigger] records@[j] == tbl[j],
            tot_c == cum_comp(records@, i as int),
            tot_d == cum_decomp(records@, i as int),
        decreases num_records - i,
    {
        let ghost recs0 = records@;
        let ghost pos0 = *pos as int;
        let compressed_size = match version.read_number(data, pos) {
            Ok(v) => v,
            Err(e) => {
                proof {
                    assert(w == 4 || w == 8);
                    lemma_pair_read_fails(data@, base, w, n, i as int, pos0);
                    assert(!(base + 2 * w * n <= data@.len() && pairs_fit(
                        data@,
                        base,
                        w,
                        n,
                    ))) by {
                        if base + 2 * w * n <= data@.len() && pairs_fit(data@, base, w, n) {
                            lemma_pairs_fit_at(data@, base, w, n, i as int);
                        }
                    }
                }
                return Err(e);
            },
        };
        let decompressed_size = match version.read_number(data, pos) {
            Ok(v) => v,
            Err(e) => {
                proof {
                    assert(w == 4 || w == 8);
                    assert(*pos == pos0 + w);
                    lemma_pair_read_fails(data@, base, w, n, i as int, pos0);
                    assert(!(base + 2 * w * n <= data@.len() && pairs_fit(
                        data@,
                        base,
                        w,
                        n,
                    ))) by {
                        if base + 2 * w * n <= data@.len() && pairs_fit(data@, base, w, n) {
                            lemma_pairs_fit_at(data@, base, w, n, i as int);
                        }
                    }
                }
                return Err(e);
            },
        };
        if compressed_size > usize::MAX - tot_c || decompressed_size > usize::MAX - tot_d {
            proof {
                lemma_cum_same_prefix(records@, tbl, i as int);
                assert(records@ =~= tbl.subrange(0, i as int));
                lemma_cum_prefix_le(tbl, i + 1, n);
                assert(cum_comp(tbl, i + 1) == cum_comp(tbl, i as int)
                    + tbl[i as int].compressed_size);
                assert(cum_decomp(tbl, i + 1) == cum_decomp(tbl, i as int)
                    + tbl[i as int].decompressed_size);
                assert(tbl[i as int].compressed_size == compressed_size);
                assert(tbl[i as int].decompressed_size == decompressed_size);
                assert(cum_comp(tbl, n) > usize::MAX || cum_decomp(tbl, n) > usize::MAX);
            }
            return Err(Error::InvalidData);
        }
        tot_c = tot_c + compressed_size;
        tot_d = tot_d + decompressed_size;
        records.push(BlockEntryInfo { compressed_size, decompressed_size });
        i = i + 1;
        proof {
            assert(*pos == base + 2 * w * i) by (nonlinear_arith)
                requires
                    *pos == base + 2 * w * (i - 1) + w + w,
            ;
            assert(pos0 == base + 2 * w * (i - 1)) by (nonlinear_arith)
                requires
                    pos0 == base + 2 * w * ((i - 1) as int),
            ;
            assert(pairs_fit(data@, base, w, i as int)) by {
                assert(pairs_fit(data@, base, w, i - 1));
                assert(be_val(data@.subrange(base + 2 * w * (i - 1), base + 2 * w * (i - 1) + w))
                    <= usize::MAX);
                assert(be_val(
                    data@.subrange(base + 2 * w * (i - 1) + w, base + 2 * w * (i - 1) + 2 * w),
                ) <= usize::MAX);
            }
            assert(records@[i - 1] == tbl[i - 1]);
            assert(records@.subrange(0, i - 1) =~= recs0);
            assert(cum_comp(records@, i as int) == cum_comp(records@, i - 1)
                + records@[i - 1].compressed_size);
            lemma_cum_same_prefix(records@, recs0, i - 1);
        }
    }
    proof {
        assert(records@ =~= tbl);
        assert(i == n);
    }
    Ok(records)
}

/// If one of the two reads of pair `i` is refused, the table as a whole is
/// truncated or holds an oversized value.
proof fn lemma_pair_read_fails(d: Seq<u8>, base: int, w: int, n: int, i: int, pos0: int)
    requires
        w == 4 || w == 8,
        0 <= i < n,
        pos0 == base + 2 * w * i,
        !(pos0 + w <= d.len() && be_val(d.subrange(pos0, pos0 + w)) <= usize::MAX) || !(pos0 + 2 * w
            <= d.len() && be_val(d.subrange(pos0 + w, pos0 + 2 * w)) <= usize::MAX),
    ensures
        !(base + 2 * w * n <= d.len() && be_val(d.subrange(base + 2 * w * i, base + 2 * w * i + w))
            <= usize::MAX && be_val(
            d.subrange(base + 2 * w * i + w, base + 2 * w * i + 2 * w),
        ) <= usize::MAX),
{
    assert(base + 2 * w * i + 2 * w <= base + 2 * w * n) by (nonlinear_arith)
        requires
            w > 0,
            i < n,
    ;
}

/// A prefix's running totals never exceed the whole table's.
proof fn lemma_cum_prefix_le(s: Seq<BlockEntryInfo>, i: int, n: int)
    requires
        0 <= i <= n <= s.len(),
    ensures
        cum_comp(s, i) <= cum_comp(s, n),
        cum_decomp(s, i) <= cum_decomp(s, n),
{
    lemma_cum_comp_mono(s, i, n);
}

proof fn lemma_cum_same_prefix(a: Seq<BlockEntryInfo>, b: Seq<BlockEntryInfo>, n: int)
    requires
        0 <= n <= a.len(),
        n <= b.len(),
        forall|j: int| 0 <= j < n ==> a[j] == b[j],
    ensures
        cum_comp(a, n) == cum_comp(b, n),
        cum_decomp(a, n) == cum_decomp(b, n),
    decreases n,
{
    if n > 0 {
        lemma_cum_same_prefix(a, b, n - 1);
    }
}

/// Walks the record-index table for the block that covers the entry's
/// logical offset, returning its index and its location.
pub fn locate_record(records_info: &Vec<BlockEntryInfo>, offset: usize) -> (r: Option<
    (usize, RecordOffset),
>)
    requires
        cum_comp(records_info@, records_info@.len() as int) <= usize::MAX,
        cum_decomp(records_info@, records_info@.len() as int) <= usize::MAX,
    ensures
        ({
            let infos = records_info@;
            match locate_block(infos, offset as int, 0) {
                Option::None => r is None,
                Option::Some(j) => (r matches Some(p) && {
                    &&& 0 <= j < infos.len()
                    &&& p.0 == j
                    &&& p.1.buf_offset == cum_comp(infos, j)
                    &&& p.1.block_offset == offset - cum_decomp(infos, j)
                    &&& p.1.record_size == infos[j].compressed_size
                    &&& p.1.decomp_size == infos[j].decompressed_size
                    &&& cum_decomp(infos, j) <= offset < cum_decomp(infos, j + 1)
                    &&& p.1.block_offset < p.1.decomp_size
                }),
            }
        }),
{
    let ghost infos = records_info@;
    let mut block_offset: usize = 0;
    let mut buf_offset: usize = 0;
    let mut i: usize = 0;
    while i < records_info.len()
        invariant
            infos == records_info@,
            cum_comp(infos, infos.len() as int) <= usize::MAX,
            cum_decomp(infos, infos.len() as int) <= usize::MAX,
            i <= infos.len(),
            block_offset == cum_decomp(infos, i as int),
            buf_offset == cum_comp(infos, i as int),
            block_offset <= offset,
            locate_block(infos, offset as int, 0) == locate_block(infos, offset as int, i as int),
        decreases infos.len() - i,
    {
        let info = &records_info[i];
        proof {
            lemma_cum_comp_mono(infos, i + 1, infos.len() as int);
            assert(cum_decomp(infos, i + 1) == block_offset + info.decompressed_size);
            assert(cum_comp(infos, i + 1) == buf_offset + info.compressed_size);
        }
        if offset - block_offset < info.decompressed_size {
            return Some(
                (
                    i,
                    RecordOffset {
                        buf_offset,
                        block_offset: offset - block_offset,
                        record_size: info.compressed_size,
                        decomp_size: info.decompressed_size,
                    },
                ),
            );
        }
        block_offset = block_offset + info.decompressed_size;
        buf_offset = buf_offset + info.compressed_size;
        i = i + 1;
    }
    None
}

/// Resolves a key entry's logical offset to the compressed block that
/// holds its record: the first block whose decompressed span covers the
/// offset wins, so the record's offset inside that block is less than the
/// block's decompressed size.
pub fn record_offset(records_info: &Vec<BlockEntryInfo>, entry: &crate::keys::KeyEntry) -> (r:
    Option<RecordOffset>)
    requires
        cum_comp(records_info@, records_info@.len() as int) <= usize::MAX,
        cum_decomp(records_info@, records_info@.len() as int) <= usize::MAX,
    ensures
        ({
            let infos = records_info@;
            match locate_block(infos, entry.offset as int, 0) {
                Option::None => r is None,
                Option::Some(j) => (r matches Some(ro) && {
                    &&& ro.buf_offset == cum_comp(infos, j)
                    &&& ro.block_offset == entry.offset - cum_decomp(infos, j)
                    &&& ro.record_size == infos[j].compressed_size
                    &&& ro.decomp_size == infos[j].decompressed_size
                    &&& cum_decomp(infos, j) <= entry.offset < cum_decomp(infos, j + 1)
                    &&& ro.block_offset < ro.decomp_size
                }),
            }
        }),
{
    match locate_record(records_info, entry.offset) {
        Some(p) => Some(p.1),
        None => None,
    }
}

} // verus!
