//! Trusted access to zip archives held in memory. What an archive's bytes
//! decode to is a function of those bytes alone, so each entry's name, kind
//! and contents get a name here, and small wrappers around the zip crate
//! produce them.
use std::io::Cursor;
use std::io::Read;
use vstd::prelude::*;

verus! {

/// Whether the bytes parse as a zip archive (a readable central directory).
pub uninterp spec fn zip_ok(data: Seq<u8>) -> bool;

/// How many entries the archive's central directory lists.
pub uninterp spec fn zip_entry_count(data: Seq<u8>) -> int;

/// Whether entry `i`'s header can be located and read.
pub uninterp spec fn zip_entry_meta_ok(data: Seq<u8>, i: int) -> bool;

/// The stored name of entry `i`.
pub uninterp spec fn zip_entry_name(data: Seq<u8>, i: int) -> Seq<char>;

/// Whether entry `i` is a plain file (not a directory or symbolic link).
pub uninterp spec fn zip_entry_is_file(data: Seq<u8>, i: int) -> bool;

/// Whether entry `i`'s contents decompress without error.
pub uninterp spec fn zip_entry_readable(data: Seq<u8>, i: int) -> bool;

/// The decompressed contents of entry `i`.
pub uninterp spec fn zip_entry_data(data: Seq<u8>, i: int) -> Seq<u8>;

/// A text capped at one mebibyte: all of it when it fits, its first
/// mebibyte otherwise.
pub open spec fn clip_1m(s: Seq<u8>) -> Seq<u8> {
    if s.len() <= 0x100000 {
        s
    } else {
        s.take(0x100000)
    }
}

/// Relies on zip's `ZipArchive::new` and `len` on an in-memory reader:
/// whether the bytes parse as a zip archive, and how many entries its
/// central directory lists — functions of the bytes alone.
#[verifier::external_body]
pub(crate) fn zip_open_count(data: &[u8]) -> (r: Option<usize>)
    ensures
        r is Some <==> zip_ok(data@),
        r is Some ==> r.unwrap() as int == zip_entry_count(data@),
{
    zip::ZipArchive::new(Cursor::new(data)).ok().map(|a| a.len())
}

/// Relies on zip's `by_index`, `ZipFile::name` and `ZipFile::is_file`: the
/// stored name and kind of entry `i` — functions of the bytes alone.
#[verifier::external_body]
pub(crate) fn zip_entry_meta(data: &[u8], i: usize) -> (r: Option<(String, bool)>)
    requires
        zip_ok(data@),
        (i as int) < zip_entry_count(data@),
    ensures
        r is Some <==> zip_entry_meta_ok(data@, i as int),
        r is Some ==> r.unwrap().0@ == zip_entry_name(data@, i as int) && r.unwrap().1
            == zip_entry_is_file(data@, i as int),
{
    let mut a = zip::ZipArchive::new(Cursor::new(data)).ok()?;
    let f = a.by_index(i).ok()?;
    Some((f.name().to_owned(), f.is_file()))
}

/// Relies on zip's `by_index` and `io::Read`: the decompressed contents of
/// entry `i`, capped at one mebibyte — a function of the bytes alone.
#[verifier::external_body]
pub(crate) fn zip_entry_bytes(data: &[u8], i: usize) -> (r: Option<Vec<u8>>)
    requires
        zip_ok(data@),
        (i as int) < zip_entry_count(data@),
    ensures
        r is Some <==> zip_entry_readable(data@, i as int),
        r is Some ==> r.unwrap()@ == clip_1m(zip_entry_data(data@, i as int)),
{
    let mut a = zip::ZipArchive::new(Cursor::new(data)).ok()?;
    let f = a.by_index(i).ok()?;
    let mut out = Vec::new();
    f.take(1 << 20).read_to_end(&mut out).ok()?;
    Some(out)
}

} // verus!
