use vstd::prelude::*;
use vstd::bytes::{
    lemma_auto_spec_u16_to_from_le_bytes, lemma_auto_spec_u32_to_from_le_bytes,
    lemma_auto_spec_u64_to_from_le_bytes, spec_u16_to_le_bytes, spec_u64_to_le_bytes,
};
use crate::decode::{
    lemma_decode_entries_stops_at_error, spec_decode_entries, spec_decode_entry, spec_entry_count,
    spec_meta_entry, spec_unpack,
};
use crate::encode::{
    entries_fit, lemma_content_region_bytes_len, lemma_header_bytes_len,
    lemma_meta_table_bytes_len, lemma_pack_len, lemma_path_table_bytes_len, spec_content_region,
    spec_header, spec_magic, spec_meta_record, spec_meta_table, spec_pack, spec_path_record,
    spec_path_table, FORMAT_VERSION,
};
use crate::error::ZapError;
use crate::layout::{
    archive_len, content_offset, content_region_len, header_region_len,
    lemma_content_region_len_monotone, lemma_content_region_len_nonneg, lemma_offsets_bounded,
    lemma_offsets_contiguous, lemma_path_table_len_monotone, lemma_path_table_len_nonneg,
    path_offset, path_table_len,
};
use crate::paths::path_escapes;
use crate::utf8::valid_utf8;

verus! {

/// Every path in the list decodes cleanly: it is UTF-8 text and stays
/// beneath the directory it will be joined onto.  Packing does not require
/// this — the encoder stores any bytes it is given — but only such entries
/// survive the decoder's validation unchanged.
pub open spec fn paths_well_formed(es: Seq<(Seq<u8>, Seq<u8>)>) -> bool {
    forall|k: int| 0 <= k < es.len() ==> {
        &&& valid_utf8((#[trigger] es[k]).0)
        &&& !path_escapes(es[k].0)
    }
}

proof fn lemma_meta_table_slice(es: Seq<(Seq<u8>, Seq<u8>)>, n: int, k: int)
    requires
        0 <= k < n,
    ensures
        spec_meta_table(es, n).subrange(24 * k, 24 * k + 24) == spec_meta_record(es, k),
    decreases n,
{
    lemma_auto_spec_u64_to_from_le_bytes();
    lemma_meta_table_bytes_len(es, n - 1);
    if k == n - 1 {
        assert(spec_meta_table(es, n).subrange(24 * k, 24 * k + 24) =~= spec_meta_record(es, k));
    } else {
        lemma_meta_table_slice(es, n - 1, k);
        assert(spec_meta_table(es, n).subrange(24 * k, 24 * k + 24) =~= spec_meta_table(
            es,
            n - 1,
        ).subrange(24 * k, 24 * k + 24));
    }
}

proof fn lemma_path_table_slice(es: Seq<(Seq<u8>, Seq<u8>)>, n: int, k: int)
    requires
        0 <= k < n,
    ensures
        spec_path_table(es, n).subrange(path_table_len(es, k), path_table_len(es, k + 1))
            == spec_path_record(es[k]),
    decreases n,
{
    lemma_auto_spec_u16_to_from_le_bytes();
    lemma_path_table_bytes_len(es, n - 1);
    lemma_path_table_len_nonneg(es, k);
    if k == n - 1 {
        assert(spec_path_table(es, n).subrange(path_table_len(es, k), path_table_len(es, k + 1))
            =~= spec_path_record(es[k]));
    } else {
        lemma_path_table_slice(es, n - 1, k);
        lemma_path_table_len_monotone(es, k + 1, n - 1);
        assert(spec_path_table(es, n).subrange(path_table_len(es, k), path_table_len(es, k + 1))
            =~= spec_path_table(es, n - 1).subrange(
            path_table_len(es, k),
            path_table_len(es, k + 1),
        ));
    }
}

proof fn lemma_content_region_slice(es: Seq<(Seq<u8>, Seq<u8>)>, n: int, k: int)
    requires
        0 <= k < n,
    ensures
        spec_content_region(es, n).subrange(
            content_region_len(es, k),
            content_region_len(es, k + 1),
        ) == es[k].1,
    decreases n,
{
    lemma_content_region_bytes_len(es, n - 1);
    lemma_content_region_len_nonneg(es, k);
    if k == n - 1 {
        assert(spec_content_region(es, n).subrange(
            content_region_len(es, k),
            content_region_len(es, k + 1),
        ) =~= es[k].1);
    } else {
        lemma_content_region_slice(es, n - 1, k);
        lemma_content_region_len_monotone(es, k + 1, n - 1);
        assert(spec_content_region(es, n).subrange(
            content_region_len(es, k),
            content_region_len(es, k + 1),
        ) =~= spec_content_region(es, n - 1).subrange(
            content_region_len(es, k),
            content_region_len(es, k + 1),
        ));
    }
}

/// Reading any of the four regions back out of a packed archive yields the
/// bytes the encoder placed there.
proof fn lemma_pack_regions(es: Seq<(Seq<u8>, Seq<u8>)>)
    ensures
        spec_pack(es).subrange(0, 4) == spec_magic(),
        spec_pack(es).subrange(4, 8) == vstd::bytes::spec_u32_to_le_bytes(FORMAT_VERSION),
        spec_pack(es).subrange(8, 16) == spec_u64_to_le_bytes(es.len() as u64),
        spec_pack(es).subrange(16, header_region_len(es.len() as int)) == spec_meta_table(
            es,
            es.len() as int,
        ),
        spec_pack(es).subrange(
            header_region_len(es.len() as int),
            header_region_len(es.len() as int) + path_table_len(es, es.len() as int),
        ) == spec_path_table(es, es.len() as int),
        spec_pack(es).subrange(
            header_region_len(es.len() as int) + path_table_len(es, es.len() as int),
            archive_len(es),
        ) == spec_content_region(es, es.len() as int),
{
    let n = es.len() as int;
    lemma_auto_spec_u32_to_from_le_bytes();
    lemma_auto_spec_u64_to_from_le_bytes();
    lemma_header_bytes_len(n);
    lemma_meta_table_bytes_len(es, n);
    lemma_path_table_bytes_len(es, n);
    lemma_content_region_bytes_len(es, n);
    lemma_path_table_len_nonneg(es, n);
    lemma_content_region_len_nonneg(es, n);
    assert(spec_pack(es).subrange(0, 4) =~= spec_magic());
    assert(spec_pack(es).subrange(4, 8) =~= vstd::bytes::spec_u32_to_le_bytes(FORMAT_VERSION));
    assert(spec_pack(es).subrange(8, 16) =~= spec_u64_to_le_bytes(es.len() as u64));
    assert(spec_pack(es).subrange(16, header_region_len(n)) =~= spec_meta_table(es, n));
    assert(spec_pack(es).subrange(
        header_region_len(n),
        header_region_len(n) + path_table_len(es, n),
    ) =~= spec_path_table(es, n));
    assert(spec_pack(es).subrange(
        header_region_len(n) + path_table_len(es, n),
        archive_len(es),
    ) =~= spec_content_region(es, n));
}

/// Slicing a slice of `s` reads the same bytes as slicing `s` directly.
proof fn lemma_subrange_of_subrange(s: Seq<u8>, outer_lo: int, outer_hi: int, lo: int, hi: int)
    requires
        0 <= outer_lo <= outer_hi <= s.len(),
        0 <= lo <= hi <= outer_hi - outer_lo,
    ensures
        s.subrange(outer_lo, outer_hi).subrange(lo, hi) == s.subrange(
            outer_lo + lo,
            outer_lo + hi,
        ),
{
    assert(s.subrange(outer_lo, outer_hi).subrange(lo, hi) =~= s.subrange(
        outer_lo + lo,
        outer_lo + hi,
    ));
}

/// The metadata triple decoded from a packed archive is the one the layout
/// model computed: entry `k`'s path offset, content size and content
/// offset.
proof fn lemma_pack_meta(es: Seq<(Seq<u8>, Seq<u8>)>, k: int)
    requires
        entries_fit(es),
        0 <= k < es.len(),
    ensures
        spec_meta_entry(spec_pack(es), k) == (
            path_offset(es, k),
            es[k].1.len() as int,
            content_offset(es, k),
        ),
{
    let a = spec_pack(es);
    let n = es.len() as int;
    lemma_auto_spec_u64_to_from_le_bytes();
    lemma_pack_regions(es);
    lemma_meta_table_slice(es, n, k);
    lemma_meta_table_bytes_len(es, n);
    lemma_header_bytes_len(n);
    lemma_pack_len(es);
    lemma_offsets_bounded(es, k);
    lemma_offsets_bounded(es, k + 1);
    lemma_offsets_bounded(es, n);
    lemma_content_region_len_nonneg(es, k);
    lemma_content_region_len_monotone(es, k + 1, n);
    lemma_offsets_contiguous(es, k);
    let po = path_offset(es, k);
    let sz = es[k].1.len() as int;
    let co = content_offset(es, k);
    let h = header_region_len(n);
    let r = spec_meta_record(es, k);
    lemma_subrange_of_subrange(a, 16, h, 24 * k, 24 * k + 24);
    assert(a.subrange(16 + 24 * k, 16 + 24 * k + 24) == r);
    lemma_subrange_of_subrange(a, 16 + 24 * k, 16 + 24 * k + 24, 0, 8);
    lemma_subrange_of_subrange(a, 16 + 24 * k, 16 + 24 * k + 24, 8, 16);
    lemma_subrange_of_subrange(a, 16 + 24 * k, 16 + 24 * k + 24, 16, 24);
    assert(r.subrange(0, 8) =~= spec_u64_to_le_bytes(po as u64));
    assert(r.subrange(8, 16) =~= spec_u64_to_le_bytes(sz as u64));
    assert(r.subrange(16, 24) =~= spec_u64_to_le_bytes(co as u64));
}

/// The path record decoded from a packed archive at entry `k`'s path
/// offset carries exactly entry `k`'s path.
proof fn lemma_pack_path(es: Seq<(Seq<u8>, Seq<u8>)>, k: int)
    requires
        entries_fit(es),
        0 <= k < es.len(),
    ensures
        spec_pack(es).subrange(path_offset(es, k), path_offset(es, k) + 2)
            == spec_u16_to_le_bytes(es[k].0.len() as u16),
        spec_pack(es).subrange(
            path_offset(es, k) + 2,
            path_offset(es, k) + 2 + es[k].0.len(),
        ) == es[k].0,
{
    let a = spec_pack(es);
    let n = es.len() as int;
    lemma_auto_spec_u16_to_from_le_bytes();
    lemma_pack_regions(es);
    lemma_path_table_slice(es, n, k);
    lemma_path_table_bytes_len(es, n);
    lemma_header_bytes_len(n);
    lemma_pack_len(es);
    lemma_offsets_bounded(es, k);
    lemma_offsets_bounded(es, k + 1);
    lemma_offsets_bounded(es, n);
    lemma_offsets_contiguous(es, k);
    lemma_path_table_len_nonneg(es, k);
    let h = header_region_len(n);
    let ptl = path_table_len(es, n);
    let po = path_offset(es, k);
    let plen = es[k].0.len() as int;
    let r = spec_path_record(es[k]);
    lemma_subrange_of_subrange(a, h, h + ptl, path_table_len(es, k), path_table_len(es, k + 1));
    assert(a.subrange(po, po + 2 + plen) == r);
    lemma_subrange_of_subrange(a, po, po + 2 + plen, 0, 2);
    lemma_subrange_of_subrange(a, po, po + 2 + plen, 2, 2 + plen);
    assert(r.subrange(0, 2) =~= spec_u16_to_le_bytes(es[k].0.len() as u16));
    assert(r.subrange(2, 2 + plen) =~= es[k].0);
}

/// The content blob decoded from a packed archive at entry `k`'s content
/// offset carries exactly entry `k`'s content bytes.
proof fn lemma_pack_content(es: Seq<(Seq<u8>, Seq<u8>)>, k: int)
    requires
        entries_fit(es),
        0 <= k < es.len(),
    ensures
        spec_pack(es).subrange(content_offset(es, k), content_offset(es, k) + es[k].1.len())
            == es[k].1,
{
    let a = spec_pack(es);
    let n = es.len() as int;
    lemma_pack_regions(es);
    lemma_content_region_slice(es, n, k);
    lemma_content_region_bytes_len(es, n);
    lemma_path_table_bytes_len(es, n);
    lemma_header_bytes_len(n);
    lemma_pack_len(es);
    lemma_offsets_bounded(es, k);
    lemma_offsets_bounded(es, k + 1);
    lemma_offsets_bounded(es, n);
    lemma_offsets_contiguous(es, k);
    lemma_content_region_len_nonneg(es, k);
    let h = header_region_len(n);
    let ptl = path_table_len(es, n);
    lemma_subrange_of_subrange(
        a,
        h + ptl,
        archive_len(es),
        content_region_len(es, k),
        content_region_len(es, k + 1),
    );
}

/// Decoding entry `k` of a packed archive succeeds and returns entry `k`.
proof fn lemma_decode_entry_of_pack(es: Seq<(Seq<u8>, Seq<u8>)>, k: int)
    requires
        entries_fit(es),
        paths_well_formed(es),
        0 <= k < es.len(),
    ensures
        spec_decode_entry(spec_pack(es), k) == Ok::<(Seq<u8>, Seq<u8>), ZapError>(
            (es[k].0, es[k].1),
        ),
{
    let a = spec_pack(es);
    let n = es.len() as int;
    lemma_auto_spec_u16_to_from_le_bytes();
    lemma_pack_len(es);
    lemma_pack_meta(es, k);
    lemma_pack_path(es, k);
    lemma_pack_content(es, k);
    lemma_offsets_bounded(es, k);
    lemma_offsets_bounded(es, k + 1);
    lemma_offsets_bounded(es, n);
    lemma_offsets_contiguous(es, k);
    let po = path_offset(es, k);
    let co = content_offset(es, k);
    let plen = es[k].0.len() as int;
    let sz = es[k].1.len() as int;
    assert(spec_meta_entry(a, k) == (po, sz, co));
    assert(po + 2 + plen == path_offset(es, k + 1));
    assert(po + 2 + plen <= a.len());
    assert(es[k].0.len() <= 0xFFFF);
    assert(a.subrange(po, po + 2) == spec_u16_to_le_bytes(es[k].0.len() as u16));
    assert(vstd::bytes::spec_u16_from_le_bytes(spec_u16_to_le_bytes(es[k].0.len() as u16))
        == es[k].0.len() as u16);
    assert(vstd::bytes::spec_u16_from_le_bytes(a.subrange(po, po + 2)) as int == plen);
    assert(a.subrange(po + 2, po + 2 + plen) == es[k].0);
    assert(valid_utf8(es[k].0) && !path_escapes(es[k].0));
    assert(co + sz == content_offset(es, k + 1));
    assert(co + sz <= a.len());
    assert(a.subrange(co, co + sz) == es[k].1);
}

/// Decoding the first `n` entries of a packed archive yields the first `n`
/// entries that were packed.
proof fn lemma_decode_entries_of_pack(es: Seq<(Seq<u8>, Seq<u8>)>, n: int)
    requires
        entries_fit(es),
        paths_well_formed(es),
        0 <= n <= es.len(),
    ensures
        spec_decode_entries(spec_pack(es), n) == Ok::<Seq<(Seq<u8>, Seq<u8>)>, ZapError>(
            es.subrange(0, n),
        ),
    decreases n,
{
    if n == 0 {
        assert(es.subrange(0, 0) =~= Seq::<(Seq<u8>, Seq<u8>)>::empty());
    } else {
        lemma_decode_entries_of_pack(es, n - 1);
        lemma_decode_entry_of_pack(es, n - 1);
        assert(es.subrange(0, n - 1).push((es[n - 1].0, es[n - 1].1)) =~= es.subrange(0, n));
    }
}

/// Round trip: unpacking a packed archive reproduces the packed entries —
/// the same relative paths and byte-identical contents, in the same order.
/// Holds for every entry list whose paths decode cleanly (UTF-8, contained)
/// and whose records fit the format's fixed-width fields; paths and
/// contents may be empty.
pub proof fn lemma_pack_unpack_round_trip(es: Seq<(Seq<u8>, Seq<u8>)>)
    requires
        entries_fit(es),
        paths_well_formed(es),
    ensures
        spec_unpack(spec_pack(es)) == Ok::<Seq<(Seq<u8>, Seq<u8>)>, ZapError>(es),
{
    let a = spec_pack(es);
    let n = es.len() as int;
    lemma_auto_spec_u32_to_from_le_bytes();
    lemma_auto_spec_u64_to_from_le_bytes();
    lemma_pack_len(es);
    lemma_pack_regions(es);
    lemma_path_table_len_nonneg(es, n);
    lemma_content_region_len_nonneg(es, n);
    assert(spec_entry_count(a) == n);
    lemma_decode_entries_of_pack(es, n);
    assert(es.subrange(0, n) =~= es);
}

/// Packing no files at all produces an archive of exactly the header size,
/// and unpacking that archive succeeds with no entries.
pub proof fn lemma_empty_archive()
    ensures
        spec_pack(Seq::<(Seq<u8>, Seq<u8>)>::empty()).len() == 16,
        spec_unpack(spec_pack(Seq::<(Seq<u8>, Seq<u8>)>::empty())) == Ok::<
            Seq<(Seq<u8>, Seq<u8>)>,
            ZapError,
        >(Seq::empty()),
{
    let es = Seq::<(Seq<u8>, Seq<u8>)>::empty();
    lemma_pack_len(es);
    lemma_pack_unpack_round_trip(es);
}

/// An archive whose first four bytes are not the magic tag is rejected as
/// `BadMagic`, before anything past the header is even looked at.
pub proof fn lemma_bad_magic(a: Seq<u8>)
    requires
        a.len() >= 16,
        a.subrange(0, 4) != spec_magic(),
    ensures
        spec_unpack(a) == Err::<Seq<(Seq<u8>, Seq<u8>)>, ZapError>(ZapError::BadMagic),
{
}

/// Cutting a non-empty archive off right after its metadata table makes
/// unpacking fail with `TruncatedArchive`: the first entry's path offset
/// now points past the end.
pub proof fn lemma_truncated_after_metadata(es: Seq<(Seq<u8>, Seq<u8>)>)
    requires
        entries_fit(es),
        es.len() >= 1,
    ensures
        spec_unpack(spec_pack(es).subrange(0, header_region_len(es.len() as int))) == Err::<
            Seq<(Seq<u8>, Seq<u8>)>,
            ZapError,
        >(ZapError::TruncatedArchive),
{
    let a = spec_pack(es);
    let n = es.len() as int;
    let h = header_region_len(n);
    lemma_auto_spec_u32_to_from_le_bytes();
    lemma_auto_spec_u64_to_from_le_bytes();
    lemma_pack_len(es);
    lemma_pack_regions(es);
    lemma_path_table_len_nonneg(es, n);
    lemma_content_region_len_nonneg(es, n);
    let t = a.subrange(0, h);
    assert(t.subrange(0, 4) =~= a.subrange(0, 4));
    assert(t.subrange(4, 8) =~= a.subrange(4, 8));
    assert(t.subrange(8, 16) =~= a.subrange(8, 16));
    assert(spec_entry_count(t) == n);
    assert(t.subrange(16, 24) =~= a.subrange(16, 24));
    lemma_pack_meta(es, 0);
    assert(spec_meta_entry(t, 0).0 == path_offset(es, 0));
    assert(path_offset(es, 0) == h);
    assert(spec_decode_entry(t, 0) == Err::<(Seq<u8>, Seq<u8>), ZapError>(
        ZapError::TruncatedArchive,
    ));
    lemma_decode_entries_stops_at_error(t, 0, n, ZapError::TruncatedArchive);
}

/// Whatever bytes were unpacked, every path that comes back is UTF-8 text
/// that stays beneath the output root: the decoder hands out no path that
/// could name a location outside it.
pub proof fn lemma_unpacked_paths_contained(a: Seq<u8>, es: Seq<(Seq<u8>, Seq<u8>)>)
    requires
        spec_unpack(a) == Ok::<Seq<(Seq<u8>, Seq<u8>)>, ZapError>(es),
    ensures
        paths_well_formed(es),
{
    let n = spec_entry_count(a);
    lemma_decode_entries_elements(a, n);
}

/// Entries are independent of one another: once an archive unpacks, each
/// entry's value is exactly what decoding that entry alone yields, so
/// entries could be extracted in any order, or concurrently, with no entry
/// depending on another's completion.
pub proof fn lemma_entries_independent(a: Seq<u8>, es: Seq<(Seq<u8>, Seq<u8>)>)
    requires
        spec_unpack(a) == Ok::<Seq<(Seq<u8>, Seq<u8>)>, ZapError>(es),
    ensures
        forall|k: int| 0 <= k < es.len() ==> spec_decode_entry(a, k) == Ok::<
            (Seq<u8>, Seq<u8>),
            ZapError,
        >(#[trigger] es[k]),
{
    let n = spec_entry_count(a);
    lemma_decode_entries_elements(a, n);
}

/// Inside a successful decode, every element is the successful decode of
/// its own entry.
proof fn lemma_decode_entries_elements(a: Seq<u8>, n: int)
    requires
        0 <= n,
        spec_decode_entries(a, n) is Ok,
    ensures
        spec_decode_entries(a, n)->Ok_0.len() == n,
        forall|k: int| 0 <= k < n ==> spec_decode_entry(a, k) == Ok::<(Seq<u8>, Seq<u8>), ZapError>(
            #[trigger] spec_decode_entries(a, n)->Ok_0[k],
        ),
    decreases n,
{
    if n > 0 {
        lemma_decode_entries_elements(a, n - 1);
    }
}

} // verus!
