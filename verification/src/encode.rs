use vstd::prelude::*;
use vstd::bytes::{
    lemma_auto_spec_u16_to_from_le_bytes, lemma_auto_spec_u32_to_from_le_bytes,
    lemma_auto_spec_u64_to_from_le_bytes, spec_u16_to_le_bytes, spec_u32_to_le_bytes,
    spec_u64_to_le_bytes, u16_to_le_bytes, u32_to_le_bytes, u64_to_le_bytes,
};
use crate::entry::{entry_views, FileEntry};
use crate::layout::{
    archive_len, compute_offsets, content_offset, content_region_len,
    lemma_content_region_len_monotone, lemma_content_region_len_nonneg,
    lemma_path_table_len_monotone, lemma_path_table_len_nonneg, path_offset, path_table_len,
};

verus! {

/// The four magic bytes `ZAPF` that begin every archive.
pub open spec fn spec_magic() -> Seq<u8> {
    seq![0x5Au8, 0x41u8, 0x50u8, 0x46u8]
}

/// The one format version this codec reads and writes.
pub const FORMAT_VERSION: u32 = 1;

/// The machine limits an entry list must respect to be encodable at all:
/// every stored path must fit its 16-bit length prefix, and every offset —
/// hence the whole archive — must fit the 64-bit offset fields.
pub open spec fn entries_fit(es: Seq<(Seq<u8>, Seq<u8>)>) -> bool {
    &&& archive_len(es) <= u64::MAX
    &&& forall|k: int| 0 <= k < es.len() ==> (#[trigger] es[k]).0.len() <= 0xFFFF
}

/// The fixed header for an archive of `n` entries.
pub open spec fn spec_header(n: int) -> Seq<u8> {
    spec_magic() + spec_u32_to_le_bytes(FORMAT_VERSION) + spec_u64_to_le_bytes(n as u64)
}

/// Entry `k`'s metadata record: path offset, content size, content offset,
/// each as 8 little-endian bytes.
pub open spec fn spec_meta_record(es: Seq<(Seq<u8>, Seq<u8>)>, k: int) -> Seq<u8> {
    spec_u64_to_le_bytes(path_offset(es, k) as u64) + spec_u64_to_le_bytes(
        es[k].1.len() as u64,
    ) + spec_u64_to_le_bytes(content_offset(es, k) as u64)
}

/// The metadata records of the first `n` entries, in entry order.
pub open spec fn spec_meta_table(es: Seq<(Seq<u8>, Seq<u8>)>, n: int) -> Seq<u8>
    decreases n,
{
    if n <= 0 {
        Seq::empty()
    } else {
        spec_meta_table(es, n - 1) + spec_meta_record(es, n - 1)
    }
}

/// One path record: a 16-bit little-endian length prefix, then the path
/// bytes.
pub open spec fn spec_path_record(e: (Seq<u8>, Seq<u8>)) -> Seq<u8> {
    spec_u16_to_le_bytes(e.0.len() as u16) + e.0
}

/// The path records of the first `n` entries, in entry order.
pub open spec fn spec_path_table(es: Seq<(Seq<u8>, Seq<u8>)>, n: int) -> Seq<u8>
    decreases n,
{
    if n <= 0 {
        Seq::empty()
    } else {
        spec_path_table(es, n - 1) + spec_path_record(es[n - 1])
    }
}

/// The content blobs of the first `n` entries, in entry order.
pub open spec fn spec_content_region(es: Seq<(Seq<u8>, Seq<u8>)>, n: int) -> Seq<u8>
    decreases n,
{
    if n <= 0 {
        Seq::empty()
    } else {
        spec_content_region(es, n - 1) + es[n - 1].1
    }
}

/// The complete archive for an entry list: header, metadata table, path
/// table and content region, contiguous and in that order.  All three
/// per-entry regions use the same entry order.
pub open spec fn spec_pack(es: Seq<(Seq<u8>, Seq<u8>)>) -> Seq<u8> {
    spec_header(es.len() as int) + spec_meta_table(es, es.len() as int) + spec_path_table(
        es,
        es.len() as int,
    ) + spec_content_region(es, es.len() as int)
}

pub(crate) proof fn lemma_meta_table_bytes_len(es: Seq<(Seq<u8>, Seq<u8>)>, n: int)
    requires
        0 <= n,
    ensures
        spec_meta_table(es, n).len() == 24 * n,
    decreases n,
{
    lemma_auto_spec_u64_to_from_le_bytes();
    if n > 0 {
        lemma_meta_table_bytes_len(es, n - 1);
    }
}

pub(crate) proof fn lemma_path_table_bytes_len(es: Seq<(Seq<u8>, Seq<u8>)>, n: int)
    requires
        0 <= n,
    ensures
        spec_path_table(es, n).len() == path_table_len(es, n),
    decreases n,
{
    lemma_auto_spec_u16_to_from_le_bytes();
    if n > 0 {
        lemma_path_table_bytes_len(es, n - 1);
    }
}

pub(crate) proof fn lemma_content_region_bytes_len(es: Seq<(Seq<u8>, Seq<u8>)>, n: int)
    requires
        0 <= n,
    ensures
        spec_content_region(es, n).len() == content_region_len(es, n),
    decreases n,
{
    if n > 0 {
        lemma_content_region_bytes_len(es, n - 1);
    }
}

pub(crate) proof fn lemma_header_bytes_len(n: int)
    ensures
        spec_header(n).len() == 16,
{
    lemma_auto_spec_u32_to_from_le_bytes();
    lemma_auto_spec_u64_to_from_le_bytes();
}

/// The encoder emits exactly as many bytes as the layout model assigns.
pub proof fn lemma_pack_len(es: Seq<(Seq<u8>, Seq<u8>)>)
    ensures
        spec_pack(es).len() == archive_len(es),
{
    let n = es.len() as int;
    lemma_header_bytes_len(n);
    lemma_meta_table_bytes_len(es, n);
    lemma_path_table_bytes_len(es, n);
    lemma_content_region_bytes_len(es, n);
}

/// Running total of the archive length over the first `n` entries: the
/// header plus, for each of them, its metadata record, its path record and
/// its content bytes.
pub open spec fn partial_archive_len(es: Seq<(Seq<u8>, Seq<u8>)>, n: int) -> int {
    16 + 24 * n + path_table_len(es, n) + content_region_len(es, n)
}

proof fn lemma_partial_archive_len_bounded(es: Seq<(Seq<u8>, Seq<u8>)>, n: int)
    requires
        0 <= n <= es.len(),
    ensures
        partial_archive_len(es, n) <= archive_len(es),
{
    lemma_path_table_len_monotone(es, n, es.len() as int);
    lemma_content_region_len_monotone(es, n, es.len() as int);
}

/// Decide whether an entry list respects the format's machine limits, so
/// that callers outside the verifier can establish `pack_bytes`'s
/// precondition before packing.
pub fn entries_fit_check(entries: &Vec<FileEntry>) -> (r: bool)
    ensures
        r == entries_fit(entry_views(entries@)),
{
    let ghost es = entry_views(entries@);
    let n: usize = entries.len();
    let mut total: u64 = 16;
    proof {
        lemma_path_table_len_nonneg(es, 0);
        lemma_content_region_len_nonneg(es, 0);
    }
    for k in 0..n
        invariant
            n == es.len(),
            es == entry_views(entries@),
            total == partial_archive_len(es, k as int),
            forall|j: int| 0 <= j < k ==> (#[trigger] es[j]).0.len() <= 0xFFFF,
    {
        proof {
            lemma_partial_archive_len_bounded(es, k + 1);
        }
        let plen: usize = entries[k].path.len();
        let clen: usize = entries[k].content.len();
        if plen > 0xFFFF {
            return false;
        }
        if u64::MAX - total < 26 || u64::MAX - (total + 26) < plen as u64 {
            return false;
        }
        let with_path: u64 = total + 26 + plen as u64;
        if u64::MAX - with_path < clen as u64 {
            return false;
        }
        total = with_path + clen as u64;
    }
    true
}

/// Encode an entry list as a complete archive, checking the format's
/// machine limits first: `None` exactly when some path is too long for its
/// 16-bit length prefix or the archive would outgrow its 64-bit offsets.
pub fn try_pack_bytes(entries: &Vec<FileEntry>) -> (r: Option<Vec<u8>>)
    ensures
        match r {
            Some(out) => {
                &&& entries_fit(entry_views(entries@))
                &&& out@ == spec_pack(entry_views(entries@))
            },
            None => !entries_fit(entry_views(entries@)),
        },
{
    if entries_fit_check(entries) {
        Some(pack_bytes(entries))
    } else {
        None
    }
}

/// Encode an entry list as a complete archive, written front to back in a
/// single forward pass: offsets are computed first, then every byte of the
/// result is determined by the layout model.
pub fn pack_bytes(entries: &Vec<FileEntry>) -> (out: Vec<u8>)
    requires
        entries_fit(entry_views(entries@)),
    ensures
        out@ == spec_pack(entry_views(entries@)),
        out@.len() == archive_len(entry_views(entries@)),
{
    let ghost es = entry_views(entries@);
    let n: usize = entries.len();
    let offsets = compute_offsets(entries);

    let mut out: Vec<u8> = Vec::new();
    out.push(0x5A);
    out.push(0x41);
    out.push(0x50);
    out.push(0x46);
    let mut piece = u32_to_le_bytes(FORMAT_VERSION);
    out.append(&mut piece);
    let mut piece = u64_to_le_bytes(n as u64);
    out.append(&mut piece);
    proof {
        assert(out@ =~= spec_header(n as int));
    }

    for k in 0..n
        invariant
            n == es.len(),
            es == entry_views(entries@),
            entries_fit(es),
            offsets@.len() == n,
            forall|j: int| 0 <= j < n ==> {
                &&& (#[trigger] offsets@[j]).0 == path_offset(es, j)
                &&& offsets@[j].1 == content_offset(es, j)
            },
            out@ == spec_header(n as int) + spec_meta_table(es, k as int),
    {
        let mut piece = u64_to_le_bytes(offsets[k].0);
        out.append(&mut piece);
        let mut piece = u64_to_le_bytes(entries[k].content.len() as u64);
        out.append(&mut piece);
        let mut piece = u64_to_le_bytes(offsets[k].1);
        out.append(&mut piece);
        proof {
            assert(out@ =~= spec_header(n as int) + spec_meta_table(es, k + 1));
        }
    }

    for k in 0..n
        invariant
            n == es.len(),
            es == entry_views(entries@),
            entries_fit(es),
            out@ == spec_header(n as int) + spec_meta_table(es, n as int) + spec_path_table(
                es,
                k as int,
            ),
    {
        let plen: usize = entries[k].path.len();
        let mut piece = u16_to_le_bytes(plen as u16);
        out.append(&mut piece);
        out.extend_from_slice(entries[k].path.as_slice());
        proof {
            assert(out@ =~= spec_header(n as int) + spec_meta_table(es, n as int)
                + spec_path_table(es, k + 1));
        }
    }

    for k in 0..n
        invariant
            n == es.len(),
            es == entry_views(entries@),
            out@ == spec_header(n as int) + spec_meta_table(es, n as int) + spec_path_table(
                es,
                n as int,
            ) + spec_content_region(es, k as int),
    {
        out.extend_from_slice(entries[k].content.as_slice());
        proof {
            assert(out@ =~= spec_header(n as int) + spec_meta_table(es, n as int)
                + spec_path_table(es, n as int) + spec_content_region(es, k + 1));
        }
    }
    proof {
        lemma_pack_len(es);
    }
    out
}

} // verus!
