//! Archive readers over in-memory bytes: the zip container through the
//! `zip` crate, and entry-name decoding with a fixed legacy-codepage
//! fallback through `encoding_rs`. Each outside call sits behind a trusted
//! item; the enumeration loops and the name decoding around them are
//! verified. The 7z container is decoded by the caller instead: its parser
//! can abort on a crafted archive, so no trusted contract can promise it
//! returns; the caller hands the decoded entries in as plain values.
use vstd::prelude::*;

use std::io::Cursor;
use vstd::utf8::valid_utf8;
use vstd::utf8::encode_utf8;
use crate::errors::LibError;
use crate::archive::ArchiveEntry;

verus! {

#[verifier::external_type_specification]
#[verifier::external_body]
#[verifier::reject_recursive_types(T)]
pub struct ExCursor<T>(Cursor<T>);

#[verifier::external_type_specification]
#[verifier::external_body]
#[verifier::reject_recursive_types(R)]
pub struct ExZipArchive<R>(zip::ZipArchive<R>);

/// The raw entry list of an opened zip archive: for each entry its stored
/// name bytes and whether it is a directory.
pub uninterp spec fn zip_entries_of(a: zip::ZipArchive<Cursor<Vec<u8>>>) -> Seq<(Seq<u8>, bool)>;

/// The decompressed bytes of each entry of an opened zip archive.
pub uninterp spec fn zip_data_of(a: zip::ZipArchive<Cursor<Vec<u8>>>) -> Seq<Seq<u8>>;

/// Whether the zip container parser accepts these bytes; acceptance is a
/// function of the bytes alone.
pub uninterp spec fn zip_parses(data: Seq<u8>) -> bool;

/// Whether reading entry `i`'s stored name and kind of this opened archive
/// succeeds; a function of the archive value and the index alone.
pub uninterp spec fn zip_entry_ok(a: zip::ZipArchive<Cursor<Vec<u8>>>, i: int) -> bool;

/// Whether decompressing entry `i` of this opened archive succeeds; a
/// function of the archive value and the index alone.
pub uninterp spec fn zip_read_ok(a: zip::ZipArchive<Cursor<Vec<u8>>>, i: int) -> bool;

/// Relies on zip::ZipArchive::new: parses the central directory of the
/// archive bytes; a container it cannot read is an error.
#[verifier::external_body]
fn zip_open(data: Vec<u8>) -> (r: Result<zip::ZipArchive<Cursor<Vec<u8>>>, LibError>)
    ensures
        r is Ok <==> zip_parses(data@),
        match r {
            Ok(a) => zip_entries_of(a).len() == zip_data_of(a).len(),
            Err(e) => e == LibError::ArchiveCorrupt,
        },
{
    match zip::ZipArchive::new(Cursor::new(data)) {
        Ok(a) => Ok(a),
        Err(_) => Err(LibError::ArchiveCorrupt),
    }
}

/// Relies on zip::ZipArchive::len: the number of entries the central
/// directory lists.
#[verifier::external_body]
fn zip_len(a: &zip::ZipArchive<Cursor<Vec<u8>>>) -> (r: usize)
    ensures
        r == zip_entries_of(*a).len(),
{
    a.len()
}

/// Relies on zip::ZipArchive::by_index with ZipFile::name_raw and
/// ZipFile::is_dir: the stored name bytes and kind of one entry. Reading
/// moves the underlying cursor but never changes what the archive holds.
#[verifier::external_body]
fn zip_entry_meta(a: &mut zip::ZipArchive<Cursor<Vec<u8>>>, i: usize) -> (r: Result<
    (Vec<u8>, bool),
    LibError,
>)
    requires
        i < zip_entries_of(*old(a)).len(),
    ensures
        zip_entries_of(*final(a)) == zip_entries_of(*old(a)),
        zip_data_of(*final(a)) == zip_data_of(*old(a)),
        forall|j: int| #[trigger] zip_entry_ok(*final(a), j) == zip_entry_ok(*old(a), j),
        forall|j: int| #[trigger] zip_read_ok(*final(a), j) == zip_read_ok(*old(a), j),
        r is Ok <==> zip_entry_ok(*old(a), i as int),
        match r {
            Ok(p) => (p.0@, p.1) == zip_entries_of(*old(a))[i as int],
            Err(e) => e == LibError::ArchiveCorrupt,
        },
{
    match a.by_index(i) {
        Ok(f) => {
            let name = f.name_raw().to_vec();
            let is_dir = f.is_dir();
            Ok((name, is_dir))
        },
        Err(_) => Err(LibError::ArchiveCorrupt),
    }
}

/// Relies on zip::ZipArchive::by_index and std's Read::read_to_end: the
/// decompressed bytes of one entry.
#[verifier::external_body]
fn zip_entry_bytes(a: &mut zip::ZipArchive<Cursor<Vec<u8>>>, i: usize) -> (r: Result<
    Vec<u8>,
    LibError,
>)
    requires
        i < zip_entries_of(*old(a)).len(),
    ensures
        zip_entries_of(*final(a)) == zip_entries_of(*old(a)),
        zip_data_of(*final(a)) == zip_data_of(*old(a)),
        forall|j: int| #[trigger] zip_entry_ok(*final(a), j) == zip_entry_ok(*old(a), j),
        forall|j: int| #[trigger] zip_read_ok(*final(a), j) == zip_read_ok(*old(a), j),
        r is Ok <==> zip_read_ok(*old(a), i as int),
        match r {
            Ok(d) => zip_entries_of(*old(a)).len() == zip_data_of(*old(a)).len() ==> d@
                == zip_data_of(*old(a))[i as int],
            Err(e) => e == LibError::ArchiveCorrupt,
        },
{
    match a.by_index(i) {
        Ok(mut f) => {
            let mut buf: Vec<u8> = Vec::new();
            match std::io::Read::read_to_end(&mut f, &mut buf) {
                Ok(_) => Ok(buf),
                Err(_) => Err(LibError::ArchiveCorrupt),
            }
        },
        Err(_) => Err(LibError::ArchiveCorrupt),
    }
}

/// Reads the decompressed bytes of the entry at `i`; it succeeds exactly
/// when the entry decompresses.
pub fn zip_read_entry(a: &mut zip::ZipArchive<Cursor<Vec<u8>>>, i: usize) -> (r: Result<
    Vec<u8>,
    LibError,
>)
    requires
        i < zip_entries_of(*old(a)).len(),
    ensures
        zip_entries_of(*final(a)) == zip_entries_of(*old(a)),
        zip_data_of(*final(a)) == zip_data_of(*old(a)),
        forall|j: int| #[trigger] zip_entry_ok(*final(a), j) == zip_entry_ok(*old(a), j),
        forall|j: int| #[trigger] zip_read_ok(*final(a), j) == zip_read_ok(*old(a), j),
        r is Ok <==> zip_read_ok(*old(a), i as int),
        match r {
            Ok(d) => zip_entries_of(*old(a)).len() == zip_data_of(*old(a)).len() ==> d@
                == zip_data_of(*old(a))[i as int],
            Err(e) => e == LibError::ArchiveCorrupt,
        },
{
    zip_entry_bytes(a, i)
}

/// What the legacy GBK codepage decodes a byte string to; the decoding is
/// total and determined by the bytes alone.
pub uninterp spec fn gbk_of(bytes: Seq<u8>) -> Seq<char>;

/// Relies on std::str::from_utf8: it succeeds exactly on valid UTF-8 and
/// returns the text those bytes encode.
#[verifier::external_body]
fn utf8_decode(b: &Vec<u8>) -> (r: Option<String>)
    ensures
        r is Some <==> valid_utf8(b@),
        match r {
            Some(s) => encode_utf8(s@) == b@,
            None => true,
        },
{
    match std::str::from_utf8(b.as_slice()) {
        Ok(s) => Some(s.to_string()),
        Err(_) => None,
    }
}

/// Relies on encoding_rs::GBK and Encoding::decode: a total decoding of
/// the bytes under the fixed fallback codepage.
#[verifier::external_body]
fn gbk_decode(b: &Vec<u8>) -> (r: String)
    ensures
        r@ == gbk_of(b@),
{
    let (cow, _encoding, _malformed) = encoding_rs::GBK.decode(b.as_slice());
    cow.to_string()
}

/// Decodes an archive entry name: as UTF-8 where the bytes are valid
/// UTF-8, through the fixed legacy codepage otherwise.
pub fn decode_entry_name(b: &Vec<u8>) -> (r: String)
    ensures
        valid_utf8(b@) ==> encode_utf8(r@) == b@,
        !valid_utf8(b@) ==> r@ == gbk_of(b@),
{
    match utf8_decode(b) {
        Some(s) => s,
        None => gbk_decode(b),
    }
}

/// An archive entry name matches its stored bytes when it is their UTF-8
/// reading, or their legacy-codepage reading where they are not UTF-8.
pub open spec fn name_decodes(raw: Seq<u8>, name: Seq<char>) -> bool {
    if valid_utf8(raw) {
        encode_utf8(name) == raw
    } else {
        name == gbk_of(raw)
    }
}

/// Opens a zip archive held in memory; it succeeds exactly when the bytes
/// parse as a zip container.
pub fn zip_archive_from_bytes(data: Vec<u8>) -> (r: Result<
    zip::ZipArchive<Cursor<Vec<u8>>>,
    LibError,
>)
    ensures
        r is Ok <==> zip_parses(data@),
        match r {
            Ok(a) => zip_entries_of(a).len() == zip_data_of(a).len(),
            Err(e) => e == LibError::ArchiveCorrupt,
        },
{
    zip_open(data)
}

/// Lists a zip archive's entries under the uniform model: one entry per
/// stored record, in order, each with its decoded name and kind.
pub fn zip_entries(a: &mut zip::ZipArchive<Cursor<Vec<u8>>>) -> (r: Result<
    Vec<ArchiveEntry>,
    LibError,
>)
    ensures
        zip_entries_of(*final(a)) == zip_entries_of(*old(a)),
        zip_data_of(*final(a)) == zip_data_of(*old(a)),
        forall|j: int| #[trigger] zip_entry_ok(*final(a), j) == zip_entry_ok(*old(a), j),
        forall|j: int| #[trigger] zip_read_ok(*final(a), j) == zip_read_ok(*old(a), j),
        r is Ok <==> forall|i: int|
            0 <= i < zip_entries_of(*old(a)).len() ==> #[trigger] zip_entry_ok(*old(a), i),
        match r {
            Ok(v) => v@.len() == zip_entries_of(*old(a)).len() && forall|i: int|
                0 <= i < v@.len() ==> name_decodes(
                    zip_entries_of(*old(a))[i].0,
                    (#[trigger] v@[i]).path@,
                ) && v@[i].is_dir == zip_entries_of(*old(a))[i].1,
            Err(e) => e == LibError::ArchiveCorrupt,
        },
{
    let n = zip_len(a);
    let mut out: Vec<ArchiveEntry> = Vec::new();
    let mut i: usize = 0;
    while i < n
        invariant
            0 <= i <= n,
            n == zip_entries_of(*a).len(),
            zip_entries_of(*a) == zip_entries_of(*old(a)),
            zip_data_of(*a) == zip_data_of(*old(a)),
            forall|j: int| #[trigger] zip_entry_ok(*a, j) == zip_entry_ok(*old(a), j),
            forall|j: int| #[trigger] zip_read_ok(*a, j) == zip_read_ok(*old(a), j),
            forall|k: int| 0 <= k < i ==> #[trigger] zip_entry_ok(*old(a), k),
            out@.len() == i,
            forall|k: int|
                0 <= k < i ==> name_decodes(
                    zip_entries_of(*old(a))[k].0,
                    (#[trigger] out@[k]).path@,
                ) && out@[k].is_dir == zip_entries_of(*old(a))[k].1,
        decreases n - i,
    {
        match zip_entry_meta(a, i) {
            Ok(p) => {
                let name = decode_entry_name(&p.0);
                out.push(ArchiveEntry { path: name, is_dir: p.1 });
            },
            Err(e) => {
                proof {
                    assert(!zip_entry_ok(*old(a), i as int));
                }
                return Err(e);
            },
        }
        i += 1;
    }
    Ok(out)
}

} // verus!
