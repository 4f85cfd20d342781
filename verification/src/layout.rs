use vstd::prelude::*;
use crate::entry::{entry_views, FileEntry};

verus! {

/// Byte length of the fixed archive header: 4 bytes of magic, a 4-byte
/// format version and an 8-byte entry count.
pub const HEADER_LEN: u64 = 16;

/// Byte length of one metadata record: path offset, content size and
/// content offset, each 8 bytes.
pub const META_LEN: u64 = 24;

/// Byte width of the length prefix in front of every stored path.
pub const PATH_PREFIX_LEN: u64 = 2;

/// Combined length of the header and the metadata table for `n` entries.
pub open spec fn header_region_len(n: int) -> int {
    HEADER_LEN + META_LEN * n
}

/// Total length of the first `n` path records: each occupies its 2-byte
/// length prefix plus the path bytes themselves.
pub open spec fn path_table_len(es: Seq<(Seq<u8>, Seq<u8>)>, n: int) -> int
    decreases n,
{
    if n <= 0 {
        0
    } else {
        path_table_len(es, n - 1) + PATH_PREFIX_LEN + es[n - 1].0.len()
    }
}

/// Total length of the first `n` content blobs.
pub open spec fn content_region_len(es: Seq<(Seq<u8>, Seq<u8>)>, n: int) -> int
    decreases n,
{
    if n <= 0 {
        0
    } else {
        content_region_len(es, n - 1) + es[n - 1].1.len()
    }
}

/// Absolute byte offset of entry `i`'s path record.
pub open spec fn path_offset(es: Seq<(Seq<u8>, Seq<u8>)>, i: int) -> int {
    header_region_len(es.len() as int) + path_table_len(es, i)
}

/// Absolute byte offset of entry `i`'s content blob: the whole path table
/// lies between the metadata table and the content region.
pub open spec fn content_offset(es: Seq<(Seq<u8>, Seq<u8>)>, i: int) -> int {
    header_region_len(es.len() as int) + path_table_len(es, es.len() as int)
        + content_region_len(es, i)
}

/// Total byte length of the archive for these entries.
pub open spec fn archive_len(es: Seq<(Seq<u8>, Seq<u8>)>) -> int {
    content_offset(es, es.len() as int)
}

pub proof fn lemma_path_table_len_nonneg(es: Seq<(Seq<u8>, Seq<u8>)>, n: int)
    ensures
        path_table_len(es, n) >= 0,
    decreases n,
{
    if n > 0 {
        lemma_path_table_len_nonneg(es, n - 1);
    }
}

pub proof fn lemma_content_region_len_nonneg(es: Seq<(Seq<u8>, Seq<u8>)>, n: int)
    ensures
        content_region_len(es, n) >= 0,
    decreases n,
{
    if n > 0 {
        lemma_content_region_len_nonneg(es, n - 1);
    }
}

pub proof fn lemma_path_table_len_monotone(es: Seq<(Seq<u8>, Seq<u8>)>, i: int, j: int)
    requires
        i <= j,
    ensures
        path_table_len(es, i) <= path_table_len(es, j),
    decreases j - i,
{
    if i < j {
        lemma_path_table_len_monotone(es, i, j - 1);
    }
}

pub proof fn lemma_content_region_len_monotone(es: Seq<(Seq<u8>, Seq<u8>)>, i: int, j: int)
    requires
        i <= j,
    ensures
        content_region_len(es, i) <= content_region_len(es, j),
    decreases j - i,
{
    if i < j {
        lemma_content_region_len_monotone(es, i, j - 1);
    }
}

/// The three regions of an archive are laid out contiguously: consecutive
/// path records touch, as do consecutive content blobs, so the offsets of
/// entry `i + 1` are exactly those of entry `i` advanced by entry `i`'s own
/// record sizes — no gaps and no overlap anywhere in the archive.
pub proof fn lemma_offsets_contiguous(es: Seq<(Seq<u8>, Seq<u8>)>, i: int)
    requires
        0 <= i < es.len(),
    ensures
        path_offset(es, i + 1) == path_offset(es, i) + PATH_PREFIX_LEN + es[i].0.len(),
        content_offset(es, i + 1) == content_offset(es, i) + es[i].1.len(),
{
}

/// Every offset lies within the archive: the path and content regions for
/// the first `i` entries never run past the total archive length.
pub proof fn lemma_offsets_bounded(es: Seq<(Seq<u8>, Seq<u8>)>, i: int)
    requires
        0 <= i <= es.len(),
    ensures
        header_region_len(es.len() as int) <= path_offset(es, i),
        path_offset(es, i) <= path_offset(es, es.len() as int),
        path_offset(es, es.len() as int) <= content_offset(es, i),
        content_offset(es, i) <= archive_len(es),
{
    lemma_path_table_len_nonneg(es, i);
    lemma_path_table_len_monotone(es, i, es.len() as int);
    lemma_content_region_len_nonneg(es, i);
    lemma_content_region_len_monotone(es, i, es.len() as int);
}

/// The offsets the encoder stores in the metadata table, computed with the
/// two-phase cursor scheme: the path-table total must be summed first, since
/// every content offset sits past the whole path table.  Returns, for each
/// entry in order, its `(path_offset, content_offset)` pair.
pub fn compute_offsets(entries: &Vec<FileEntry>) -> (offsets: Vec<(u64, u64)>)
    requires
        archive_len(entry_views(entries@)) <= u64::MAX,
    ensures
        offsets@.len() == entries@.len(),
        forall|k: int| 0 <= k < entries@.len() ==> {
            &&& (#[trigger] offsets@[k]).0 == path_offset(entry_views(entries@), k)
            &&& offsets@[k].1 == content_offset(entry_views(entries@), k)
        },
{
    let ghost es = entry_views(entries@);
    let n: usize = entries.len();
    proof {
        lemma_offsets_bounded(es, 0);
        assert(path_table_len(es, 0) == 0);
        assert(content_region_len(es, 0) == 0);
    }
    let header_total: u64 = HEADER_LEN + META_LEN * (n as u64);

    let mut path_total: u64 = 0;
    for k in 0..n
        invariant
            n == es.len(),
            es == entry_views(entries@),
            archive_len(es) <= u64::MAX,
            header_total == header_region_len(es.len() as int),
            path_total == path_table_len(es, k as int),
    {
        proof {
            lemma_offsets_bounded(es, k + 1);
        }
        path_total = path_total + PATH_PREFIX_LEN + entries[k].path.len() as u64;
    }

    let mut offsets: Vec<(u64, u64)> = Vec::new();
    let mut path_cursor: u64 = header_total;
    let mut content_cursor: u64 = header_total + path_total;
    for k in 0..n
        invariant
            n == es.len(),
            es == entry_views(entries@),
            archive_len(es) <= u64::MAX,
            path_cursor == path_offset(es, k as int),
            content_cursor == content_offset(es, k as int),
            offsets@.len() == k,
            forall|j: int| 0 <= j < k ==> {
                &&& (#[trigger] offsets@[j]).0 == path_offset(es, j)
                &&& offsets@[j].1 == content_offset(es, j)
            },
    {
        offsets.push((path_cursor, content_cursor));
        proof {
            lemma_offsets_contiguous(es, k as int);
            lemma_offsets_bounded(es, k + 1);
        }
        path_cursor = path_cursor + PATH_PREFIX_LEN + entries[k].path.len() as u64;
        content_cursor = content_cursor + entries[k].content.len() as u64;
    }
    offsets
}

} // verus!
