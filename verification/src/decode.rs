use vstd::prelude::*;
use vstd::bytes::{
    spec_u16_from_le_bytes, spec_u32_from_le_bytes, spec_u64_from_le_bytes, u16_from_le_bytes,
    u32_from_le_bytes, u64_from_le_bytes,
};
use vstd::slice::{slice_subrange, slice_to_vec};
use crate::encode::{spec_magic, FORMAT_VERSION};
use crate::entry::{entry_views, FileEntry};
use crate::error::ZapError;
use crate::paths::{path_escapes, path_escapes_root};
use crate::utf8::{is_valid_utf8, valid_utf8};

verus! {

/// The metadata triple stored for entry `k`: `(path offset, content size,
/// content offset)`, read from the three 8-byte fields of record `k`.
pub open spec fn spec_meta_entry(a: Seq<u8>, k: int) -> (int, int, int) {
    let base = 16 + 24 * k;
    (
        spec_u64_from_le_bytes(a.subrange(base, base + 8)) as int,
        spec_u64_from_le_bytes(a.subrange(base + 8, base + 16)) as int,
        spec_u64_from_le_bytes(a.subrange(base + 16, base + 24)) as int,
    )
}

/// The entry count stored in the header.
pub open spec fn spec_entry_count(a: Seq<u8>) -> int {
    spec_u64_from_le_bytes(a.subrange(8, 16)) as int
}

/// Decode entry `k` of archive `a`, assuming the header and the whole
/// metadata table are in bounds.  Every validation precedes any use of the
/// data it guards: a read past the end of the archive is `TruncatedArchive`,
/// a path that is not UTF-8 is `InvalidPathEncoding`, a path that would
/// resolve outside the output root is `PathEscapesRoot`, and a content size
/// that exceeds the bytes remaining past its offset is `SizeMismatch`.
pub open spec fn spec_decode_entry(a: Seq<u8>, k: int) -> Result<(Seq<u8>, Seq<u8>), ZapError> {
    let meta = spec_meta_entry(a, k);
    let po = meta.0;
    let sz = meta.1;
    let co = meta.2;
    if po + 2 > a.len() {
        Err(ZapError::TruncatedArchive)
    } else {
        let plen = spec_u16_from_le_bytes(a.subrange(po, po + 2)) as int;
        if po + 2 + plen > a.len() {
            Err(ZapError::TruncatedArchive)
        } else {
            let p = a.subrange(po + 2, po + 2 + plen);
            if !valid_utf8(p) {
                Err(ZapError::InvalidPathEncoding)
            } else if path_escapes(p) {
                Err(ZapError::PathEscapesRoot)
            } else if co > a.len() {
                Err(ZapError::TruncatedArchive)
            } else if co + sz > a.len() {
                Err(ZapError::SizeMismatch)
            } else {
                Ok((p, a.subrange(co, co + sz)))
            }
        }
    }
}

/// Decode the first `n` entries in entry order; the first failure wins.
pub open spec fn spec_decode_entries(a: Seq<u8>, n: int) -> Result<
    Seq<(Seq<u8>, Seq<u8>)>,
    ZapError,
>
    decreases n,
{
    if n <= 0 {
        Ok(Seq::empty())
    } else {
        match spec_decode_entries(a, n - 1) {
            Err(e) => Err(e),
            Ok(prefix) => match spec_decode_entry(a, n - 1) {
                Err(e) => Err(e),
                Ok(pair) => Ok(prefix.push(pair)),
            },
        }
    }
}

/// What unpacking an archive yields: the decoded entries, or the first
/// error in checking order — magic, then version, then the metadata table's
/// bounds, then each entry in order.
pub open spec fn spec_unpack(a: Seq<u8>) -> Result<Seq<(Seq<u8>, Seq<u8>)>, ZapError> {
    if a.len() < 16 {
        Err(ZapError::TruncatedArchive)
    } else if a.subrange(0, 4) != spec_magic() {
        Err(ZapError::BadMagic)
    } else if spec_u32_from_le_bytes(a.subrange(4, 8)) != FORMAT_VERSION {
        Err(ZapError::VersionMismatch)
    } else if 16 + 24 * spec_entry_count(a) > a.len() {
        Err(ZapError::TruncatedArchive)
    } else {
        spec_decode_entries(a, spec_entry_count(a))
    }
}

/// Once some entry fails to decode, decoding any longer prefix of the entry
/// list fails with that same first error.
pub(crate) proof fn lemma_decode_entries_stops_at_error(a: Seq<u8>, k: int, n: int, e: ZapError)
    requires
        0 <= k < n,
        spec_decode_entries(a, k) is Ok,
        spec_decode_entry(a, k) == Err::<(Seq<u8>, Seq<u8>), ZapError>(e),
    ensures
        spec_decode_entries(a, n) == Err::<Seq<(Seq<u8>, Seq<u8>)>, ZapError>(e),
    decreases n,
{
    if n - 1 > k {
        lemma_decode_entries_stops_at_error(a, k, n - 1, e);
    }
}

fn read_u16(a: &Vec<u8>, off: usize) -> (x: u16)
    requires
        off + 2 <= a@.len(),
    ensures
        x == spec_u16_from_le_bytes(a@.subrange(off as int, off as int + 2)),
{
    let alen: usize = a.len();
    assert(off + 2 <= alen);
    u16_from_le_bytes(slice_subrange(a.as_slice(), off, off + 2))
}

fn read_u32(a: &Vec<u8>, off: usize) -> (x: u32)
    requires
        off + 4 <= a@.len(),
    ensures
        x == spec_u32_from_le_bytes(a@.subrange(off as int, off as int + 4)),
{
    let alen: usize = a.len();
    assert(off + 4 <= alen);
    u32_from_le_bytes(slice_subrange(a.as_slice(), off, off + 4))
}

fn read_u64(a: &Vec<u8>, off: usize) -> (x: u64)
    requires
        off + 8 <= a@.len(),
    ensures
        x == spec_u64_from_le_bytes(a@.subrange(off as int, off as int + 8)),
{
    let alen: usize = a.len();
    assert(off + 8 <= alen);
    u64_from_le_bytes(slice_subrange(a.as_slice(), off, off + 8))
}

fn read_range(a: &Vec<u8>, off: usize, n: usize) -> (out: Vec<u8>)
    requires
        off + n <= a@.len(),
    ensures
        out@ == a@.subrange(off as int, off as int + n as int),
{
    let alen: usize = a.len();
    assert(off + n <= alen);
    slice_to_vec(slice_subrange(a.as_slice(), off, off + n))
}

/// A count claims more metadata records than the bytes past the header can
/// hold exactly when it exceeds their number divided by the record size.
proof fn lemma_count_check(d: int, c: int)
    requires
        d >= 0,
        c >= 0,
    ensures
        c > d / 24 <==> 24 * c > d,
{
    vstd::arithmetic::div_mod::lemma_fundamental_div_mod(d, 24);
    vstd::arithmetic::div_mod::lemma_mod_bound(d, 24);
    let q = d / 24;
    if c > q {
        assert(24 * c >= 24 * (q + 1)) by (nonlinear_arith)
            requires
                c >= q + 1,
        ;
    } else {
        assert(24 * c <= 24 * q) by (nonlinear_arith)
            requires
                c <= q,
        ;
    }
}

/// Decode a complete archive back into its entry list.  The result is
/// exactly what `spec_unpack` says for these bytes: every validation error
/// is reported as such, and on success the entries carry the same paths and
/// the same content bytes, in the same order, as the archive stores.
pub fn unpack_bytes(archive: &Vec<u8>) -> (r: Result<Vec<FileEntry>, ZapError>)
    ensures
        match r {
            Ok(es) => spec_unpack(archive@) == Ok::<Seq<(Seq<u8>, Seq<u8>)>, ZapError>(
                entry_views(es@),
            ),
            Err(e) => spec_unpack(archive@) == Err::<Seq<(Seq<u8>, Seq<u8>)>, ZapError>(e),
        },
{
    let len: usize = archive.len();
    if len < 16 {
        return Err(ZapError::TruncatedArchive);
    }
    if archive[0] != 0x5A || archive[1] != 0x41 || archive[2] != 0x50 || archive[3] != 0x46 {
        proof {
            assert(archive@.subrange(0, 4) != spec_magic());
        }
        return Err(ZapError::BadMagic);
    }
    proof {
        assert(archive@.subrange(0, 4) =~= spec_magic());
    }
    let version = read_u32(archive, 4);
    if version != FORMAT_VERSION {
        return Err(ZapError::VersionMismatch);
    }
    let count64 = read_u64(archive, 8);
    proof {
        lemma_count_check((len - 16) as int, count64 as int);
    }
    if count64 > ((len - 16) / 24) as u64 {
        return Err(ZapError::TruncatedArchive);
    }
    let count = count64 as usize;
    let len64 = len as u64;

    let mut out: Vec<FileEntry> = Vec::new();
    proof {
        assert(entry_views(out@) =~= Seq::<(Seq<u8>, Seq<u8>)>::empty());
    }
    for k in 0..count
        invariant
            len == archive@.len(),
            len >= 16,
            len64 == len,
            count == count64,
            count64 == spec_entry_count(archive@),
            archive@.subrange(0, 4) == spec_magic(),
            spec_u32_from_le_bytes(archive@.subrange(4, 8)) == FORMAT_VERSION,
            16 + 24 * (count as int) <= len,
            out@.len() == k,
            spec_decode_entries(archive@, k as int) == Ok::<Seq<(Seq<u8>, Seq<u8>)>, ZapError>(
                entry_views(out@),
            ),
    {
        let base: usize = 16 + 24 * k;
        let po = read_u64(archive, base);
        let sz = read_u64(archive, base + 8);
        let co = read_u64(archive, base + 16);
        proof {
            assert(spec_meta_entry(archive@, k as int) == (po as int, sz as int, co as int));
        }

        if po > len64 - 2 {
            proof {
                lemma_decode_entries_stops_at_error(
                    archive@,
                    k as int,
                    count as int,
                    ZapError::TruncatedArchive,
                );
            }
            return Err(ZapError::TruncatedArchive);
        }
        let pou = po as usize;
        let plen16 = read_u16(archive, pou);
        let plen = plen16 as u64;
        if plen > len64 - (po + 2) {
            proof {
                lemma_decode_entries_stops_at_error(
                    archive@,
                    k as int,
                    count as int,
                    ZapError::TruncatedArchive,
                );
            }
            return Err(ZapError::TruncatedArchive);
        }
        let path = read_range(archive, pou + 2, plen16 as usize);
        if !is_valid_utf8(&path) {
            proof {
                lemma_decode_entries_stops_at_error(
                    archive@,
                    k as int,
                    count as int,
                    ZapError::InvalidPathEncoding,
                );
            }
            return Err(ZapError::InvalidPathEncoding);
        }
        if path_escapes_root(&path) {
            proof {
                lemma_decode_entries_stops_at_error(
                    archive@,
                    k as int,
                    count as int,
                    ZapError::PathEscapesRoot,
                );
            }
            return Err(ZapError::PathEscapesRoot);
        }
        if co > len64 {
            proof {
                lemma_decode_entries_stops_at_error(
                    archive@,
                    k as int,
                    count as int,
                    ZapError::TruncatedArchive,
                );
            }
            return Err(ZapError::TruncatedArchive);
        }
        if sz > len64 - co {
            proof {
                lemma_decode_entries_stops_at_error(
                    archive@,
                    k as int,
                    count as int,
                    ZapError::SizeMismatch,
                );
            }
            return Err(ZapError::SizeMismatch);
        }
        let content = read_range(archive, co as usize, sz as usize);
        let ghost prev = out@;
        out.push(FileEntry { path, content });
        proof {
            assert(entry_views(out@) =~= entry_views(prev).push(
                (out@[k as int].path@, out@[k as int].content@),
            ));
        }
    }
    Ok(out)
}

} // verus!
