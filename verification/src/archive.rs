//! Reading and writing ZIP archives held in memory, through the `zip` crate.

use std::io::Cursor;
use std::io::Read;
use std::io::Write;
use zip::write::SimpleFileOptions;
use zip::CompressionMethod::{Deflated, Stored};
use zip::{ZipArchive, ZipWriter};
use vstd::prelude::*;
use vstd::string::StringSliceAdditionalSpecFns;

verus! {

/// Why the directory of an archive could not be read.
#[derive(Debug)]
pub enum ArchiveFault {
    /// `ZipArchive::new` refused the bytes; the text is the `zip` error's message.
    NotZip(String),
    /// An entry of the central directory could not be read; the text is the error's message.
    Directory(String),
}

/// Why an entry could not be added to an archive being written.
#[derive(Debug)]
pub enum EntryFault {
    /// The entry name is not valid UTF-8.
    BadName,
    /// The entry name is longer than the 65535 bytes that a ZIP header can record.
    LongName,
    /// `start_file` or the write of the data failed; the text is the error's message.
    Zip(String),
}

/// Why an archive could not be written.
#[derive(Debug)]
pub enum BuildFault {
    /// Adding the entry at this position failed.
    Entry(usize, EntryFault),
    /// `ZipWriter::finish` failed; the text is the error's message.
    Finish(String),
}

/// The number of entries that `ZipArchive::new` finds in `data` (`None` when it refuses them).
pub uninterp spec fn zip_len_spec(data: Seq<u8>) -> Option<nat>;

/// The raw name (`name_raw`) of the entry at position `i` of the archive in `data` (`None`
/// when the archive cannot be opened or `by_index_raw` fails for `i`).
pub uninterp spec fn zip_raw_name_spec(data: Seq<u8>, i: nat) -> Option<Seq<u8>>;

/// The contents of the entry named `name` (`None` when there is none or it cannot be read).
pub uninterp spec fn zip_member_spec(data: Seq<u8>, name: Seq<u8>) -> Option<Seq<u8>>;

/// The raw entry names of the archive in `data`, in directory order: `None` when the
/// archive cannot be opened or one of its entries cannot be read.
pub open spec fn zip_directory_spec(data: Seq<u8>) -> Option<Seq<Seq<u8>>> {
    match zip_len_spec(data) {
        None => None,
        Some(n) => if forall|i: nat| i < n ==> (#[trigger] zip_raw_name_spec(data, i)) is Some {
            Some(Seq::new(n, |i: int| zip_raw_name_spec(data, i as nat)->0))
        } else {
            None
        },
    }
}

/// Opens the archive with `ZipArchive::new` and takes `len`. Claimed: the result is the
/// name above applied to the bytes; the error is the `zip` error's message.
#[verifier::external_body]
pub(crate) fn zip_len(data: &[u8]) -> (r: Result<usize, String>)
    ensures
        match r {
            Ok(n) => zip_len_spec(data@) == Some(n as nat),
            Err(_) => zip_len_spec(data@) is None,
        },
{
    ZipArchive::new(Cursor::new(data)).map(|z| z.len()).map_err(|e| e.to_string())
}

/// Opens the archive with `ZipArchive::new` and takes `name_raw` of `by_index_raw(i)`.
/// Claimed: the result is the name above applied to the arguments; the error is the `zip`
/// error's message.
#[verifier::external_body]
fn zip_raw_name(data: &[u8], i: usize) -> (r: Result<Vec<u8>, String>)
    ensures
        match r {
            Ok(n) => zip_raw_name_spec(data@, i as nat) == Some(n@),
            Err(_) => zip_raw_name_spec(data@, i as nat) is None,
        },
{
    let mut z = ZipArchive::new(Cursor::new(data)).map_err(|e| e.to_string())?;
    let f = z.by_index_raw(i).map_err(|e| e.to_string())?;
    Ok(f.name_raw().to_vec())
}

/// The raw names of all entries, in directory order.
pub fn zip_directory(data: &[u8]) -> (r: Result<Vec<Vec<u8>>, ArchiveFault>)
    ensures
        r is Ok <==> zip_directory_spec(data@) is Some,
        r matches Ok(v) ==> v.deep_view() == zip_directory_spec(data@)->0,
        r matches Err(ArchiveFault::NotZip(_)) ==> zip_len_spec(data@) is None,
{
    let n = match zip_len(data) {
        Ok(n) => n,
        Err(m) => return Err(ArchiveFault::NotZip(m)),
    };
    let mut out: Vec<Vec<u8>> = Vec::new();
    let mut i: usize = 0;
    while i < n
        invariant
            zip_len_spec(data@) == Some(n as nat),
            i <= n,
            out.deep_view() == Seq::new(i as nat, |k: int| zip_raw_name_spec(data@, k as nat)->0),
            forall|k: nat| k < i ==> (#[trigger] zip_raw_name_spec(data@, k)) is Some,
        decreases n - i,
    {
        match zip_raw_name(data, i) {
            Ok(name) => {
                let ghost before = out.deep_view();
                let ghost nv = name@;
                assert(name.deep_view() =~= name@);
                out.push(name);
                assert(out.deep_view() =~= before.push(nv));
            },
            Err(m) => {
                assert(!(forall|k: nat| k < n ==> (#[trigger] zip_raw_name_spec(data@, k)) is Some));
                return Err(ArchiveFault::Directory(m));
            },
        }
        i += 1;
        assert(out.deep_view() =~= Seq::new(i as nat, |k: int| zip_raw_name_spec(data@, k as nat)->0));
    }
    Ok(out)
}

/// Reads one entry: opens the archive, looks the entry up with `by_name` (the name read as
/// UTF-8 with `String::from_utf8_lossy`) and reads it to the end. Claimed: the result is
/// the name above applied to the arguments.
#[verifier::external_body]
pub(crate) fn zip_member(data: &[u8], name: &[u8]) -> (r: Option<Vec<u8>>)
    ensures
        r.deep_view() == zip_member_spec(data@, name@),
{
    let mut z = ZipArchive::new(Cursor::new(data)).ok()?;
    let mut f = z.by_name(&String::from_utf8_lossy(name)).ok()?;
    let mut buf = Vec::new();
    f.read_to_end(&mut buf).ok()?;
    Some(buf)
}

/// An entry of the archive in `data`, read whole: `None` when there is none of that name or it
/// cannot be read.
pub fn try_read(data: &[u8], name: &[u8]) -> (r: Option<Vec<u8>>)
    ensures
        r.deep_view() == zip_member_spec(data@, name@),
{
    zip_member(data, name)
}

/// An archive being written in memory: the `zip` crate's `ZipWriter` over a buffer. Its
/// type cannot be declared to Verus (the bounds of its parameter are refused), so it is
/// held here out of Verus's sight.
#[verifier::external_body]
pub struct ArchiveWriter {
    w: ZipWriter<Cursor<Vec<u8>>>,
}

/// `std::str::from_utf8`. Claimed, as its documentation says: it succeeds exactly on valid
/// UTF-8, and then the text has the same bytes.
#[verifier::external_body]
fn utf8_text(b: &[u8]) -> (r: Option<&str>)
    ensures
        r is Some <==> vstd::utf8::valid_utf8(b@),
        r matches Some(s) ==> s.spec_bytes() == b@,
{
    std::str::from_utf8(b).ok()
}

/// The entries written so far into an archive being written: name, data, deflated.
pub uninterp spec fn writer_entries(w: ArchiveWriter) -> Seq<(Seq<u8>, Seq<u8>, bool)>;

/// The writer has met no failed call since it was made.
pub uninterp spec fn writer_clean(w: ArchiveWriter) -> bool;

/// An entry is open in the writer: data written now goes into the last entry.
pub uninterp spec fn writer_open(w: ArchiveWriter) -> bool;

/// The bytes of the finished archive that holds these entries, in this order (written with
/// the default options of `SimpleFileOptions`; without the `time` feature every entry carries
/// the same fixed date, so the bytes depend on the entries alone).
pub uninterp spec fn archive_bytes(entries: Seq<(Seq<u8>, Seq<u8>, bool)>) -> Seq<u8>;

/// Bytes of all names and data together.
pub open spec fn entries_size(es: Seq<(Seq<u8>, Seq<u8>, bool)>) -> nat
    decreases es.len(),
{
    if es.len() == 0 {
        0
    } else {
        entries_size(es.drop_last()) + es.last().0.len() + es.last().1.len()
    }
}

/// An archive small enough that the writer needs no ZIP64 record and no field overflows:
/// fewer than 65535 entries, every name under 65535 bytes, names and data under 2 GiB in all.
pub open spec fn small_archive(es: Seq<(Seq<u8>, Seq<u8>, bool)>) -> bool {
    &&& es.len() < 65535
    &&& entries_size(es) < 0x8000_0000
    &&& forall|j: int| 0 <= j < es.len() ==> (#[trigger] es[j]).0.len() < 65535
}

/// Some entry already has this name.
pub open spec fn name_taken(es: Seq<(Seq<u8>, Seq<u8>, bool)>, name: Seq<u8>) -> bool {
    exists|j: int| 0 <= j < es.len() && (#[trigger] es[j]).0 == name
}

/// No two entries share a name.
pub open spec fn names_distinct(es: Seq<(Seq<u8>, Seq<u8>, bool)>) -> bool {
    forall|i: int, j: int| 0 <= i < j < es.len() ==> (#[trigger] es[i]).0 != (#[trigger] es[j]).0
}

/// `ZipWriter::new` over an empty in-memory buffer. Claimed: no entry is written yet, none is
/// open, and no call has failed.
#[verifier::external_body]
fn zip_writer() -> (r: ArchiveWriter)
    ensures
        writer_entries(r) == Seq::<(Seq<u8>, Seq<u8>, bool)>::empty(),
        writer_clean(r),
        !writer_open(r),
{
    ArchiveWriter { w: ZipWriter::new(Cursor::new(Vec::new())) }
}

/// `ZipWriter::start_file` under `name`, deflated or stored; the error as its message.
/// Claimed: on success a new, empty entry of that name and method ends the entries and is
/// open. On a writer that met no failure it fails only on a name already written (the
/// duplicate check of `insert_file_data`); writing into an in-memory buffer does not fail,
/// and a small archive needs no ZIP64 record. Nothing is claimed of the writer after an error.
/// The name's length goes into a 16-bit header field by an unwrapping conversion, which
/// panics above 65535 bytes: such names are not admitted.
#[verifier::external_body]
fn zip_start_file(w: &mut ArchiveWriter, name: &str, deflate: bool) -> (r: Result<(), String>)
    requires
        name.spec_bytes().len() <= 65535,
    ensures
        r is Ok ==> writer_entries(*final(w)) == writer_entries(*old(w)).push(
            (name.spec_bytes(), Seq::<u8>::empty(), deflate),
        ),
        r is Ok ==> writer_open(*final(w)),
        r is Ok && writer_clean(*old(w)) ==> writer_clean(*final(w)),
        writer_clean(*old(w)) && !name_taken(writer_entries(*old(w)), name.spec_bytes()) && small_archive(
            writer_entries(*old(w)).push((name.spec_bytes(), Seq::<u8>::empty(), deflate)),
        ) ==> r is Ok,
{
    let method = if deflate { Deflated } else { Stored };
    w.w.start_file(name, SimpleFileOptions::default().compression_method(method)).map_err(|e| e.to_string())
}

/// The entries once `data` is appended to the last one.
pub open spec fn appended(es: Seq<(Seq<u8>, Seq<u8>, bool)>, data: Seq<u8>) -> Seq<(Seq<u8>, Seq<u8>, bool)> {
    let last = es.last();
    es.update(es.len() - 1, (last.0, last.1 + data, last.2))
}

/// `Write::write_all` of `data` into the entry being written; the error as its message.
/// Claimed: on success the data is appended to the last entry, which stays open. On a writer
/// that met no failure and has an entry open, it succeeds while the archive stays small (an
/// in-memory buffer takes every write; the size check refuses only entries over 4 GiB).
/// Nothing is claimed of the writer after an error.
#[verifier::external_body]
fn zip_write_all(w: &mut ArchiveWriter, data: &[u8]) -> (r: Result<(), String>)
    requires
        writer_entries(*old(w)).len() > 0,
    ensures
        r is Ok ==> writer_entries(*final(w)) == appended(writer_entries(*old(w)), data@),
        r is Ok ==> writer_open(*final(w)) == writer_open(*old(w)),
        r is Ok && writer_clean(*old(w)) ==> writer_clean(*final(w)),
        writer_clean(*old(w)) && writer_open(*old(w)) && small_archive(appended(writer_entries(*old(w)), data@))
            ==> r is Ok,
{
    w.w.write_all(data).map_err(|e| e.to_string())
}

/// `ZipWriter::finish`, and the buffer it hands back; the error as its message. Claimed: on a
/// writer that met no failure it succeeds while the archive is small, and the bytes are the
/// name above applied to the entries written.
#[verifier::external_body]
fn zip_finish(w: ArchiveWriter) -> (r: Result<Vec<u8>, String>)
    ensures
        writer_clean(w) && r is Ok ==> r->Ok_0@ == archive_bytes(writer_entries(w)),
        writer_clean(w) && small_archive(writer_entries(w)) ==> r is Ok,
{
    w.w.finish().map(|c| c.into_inner()).map_err(|e| e.to_string())
}

/// The entries as plain values.
pub open spec fn entries_of(entries: Seq<(Vec<u8>, Vec<u8>, bool)>) -> Seq<(Seq<u8>, Seq<u8>, bool)> {
    entries.map_values(|e: (Vec<u8>, Vec<u8>, bool)| (e.0@, e.1@, e.2))
}

proof fn lemma_size_prefix(es: Seq<(Seq<u8>, Seq<u8>, bool)>, k: int)
    requires
        0 <= k <= es.len(),
    ensures
        entries_size(es.subrange(0, k)) <= entries_size(es),
    decreases es.len(),
{
    if k < es.len() {
        assert(es.drop_last().subrange(0, k) =~= es.subrange(0, k));
        lemma_size_prefix(es.drop_last(), k);
    } else {
        assert(es.subrange(0, k) =~= es);
    }
}

/// A prefix of a small archive, with its last entry cut short, is small.
proof fn lemma_small_prefix(es: Seq<(Seq<u8>, Seq<u8>, bool)>, k: int, d: Seq<u8>)
    requires
        small_archive(es),
        0 <= k < es.len(),
        d.len() <= es[k].1.len(),
    ensures
        small_archive(es.subrange(0, k).push((es[k].0, d, es[k].2))),
{
    let p = es.subrange(0, k + 1);
    let q = es.subrange(0, k).push((es[k].0, d, es[k].2));
    lemma_size_prefix(es, k + 1);
    assert(p.drop_last() =~= es.subrange(0, k));
    assert(q.drop_last() =~= es.subrange(0, k));
    assert(entries_size(q) <= entries_size(p));
    assert forall|j: int| 0 <= j < q.len() implies (#[trigger] q[j]).0.len() < 65535 by {
        if j < k {
            assert(q[j] == es[j]);
        }
    }
}

/// Writes the entries in order (name, data, deflated or stored) into a new archive and
/// finishes it. An entry whose name is not UTF-8 stops the writing with `BadName` at its
/// position, and one whose name is longer than 65535 bytes with `LongName`, before the
/// `zip` crate sees it; what the `zip` crate refuses stops it with its message, which
/// happens only on a repeated name or an archive too large for the plain ZIP format.
pub fn zip_build(entries: &Vec<(Vec<u8>, Vec<u8>, bool)>) -> (r: Result<Vec<u8>, BuildFault>)
    ensures
        r matches Ok(b) ==> b@ == archive_bytes(entries_of(entries@)),
        r matches Ok(_) ==> forall|j: int| 0 <= j < entries@.len() ==> vstd::utf8::valid_utf8((#[trigger] entries@[j]).0@),
        r matches Ok(_) ==> forall|j: int| 0 <= j < entries@.len() ==> (#[trigger] entries@[j]).0@.len() <= 65535,
        r matches Err(BuildFault::Entry(i, f)) ==> i < entries@.len() && (forall|j: int|
            0 <= j < i ==> vstd::utf8::valid_utf8((#[trigger] entries@[j]).0@) && entries@[j].0@.len() <= 65535)
            && (f is BadName <==> !vstd::utf8::valid_utf8(entries@[i as int].0@)) && (f is LongName
            <==> vstd::utf8::valid_utf8(entries@[i as int].0@) && entries@[i as int].0@.len() > 65535),
        (forall|j: int| 0 <= j < entries@.len() ==> vstd::utf8::valid_utf8((#[trigger] entries@[j]).0@))
            && names_distinct(entries_of(entries@)) && small_archive(entries_of(entries@)) ==> r is Ok,
{
    let ghost es = entries_of(entries@);
    let ghost fine = (forall|j: int| 0 <= j < entries@.len() ==> vstd::utf8::valid_utf8((#[trigger] entries@[j]).0@))
        && names_distinct(es) && small_archive(es);
    let mut w = zip_writer();
    let mut i: usize = 0;
    while i < entries.len()
        invariant
            es == entries_of(entries@),
            fine == ((forall|j: int| 0 <= j < entries@.len() ==> vstd::utf8::valid_utf8((#[trigger] entries@[j]).0@))
                && names_distinct(es) && small_archive(es)),
            i <= entries@.len(),
            forall|j: int| 0 <= j < i ==> vstd::utf8::valid_utf8((#[trigger] entries@[j]).0@),
            forall|j: int| 0 <= j < i ==> (#[trigger] entries@[j]).0@.len() <= 65535,
            writer_entries(w) == es.subrange(0, i as int),
            writer_clean(w),
        decreases entries@.len() - i,
    {
        let (name, data, deflate) = &entries[i];
        proof {
            assert(es[i as int] == (name@, data@, *deflate));
        }
        let text = match utf8_text(name.as_slice()) {
            Some(t) => t,
            None => return Err(BuildFault::Entry(i, EntryFault::BadName)),
        };
        if name.len() > 65535 {
            return Err(BuildFault::Entry(i, EntryFault::LongName));
        }
        proof {
            if fine {
                lemma_small_prefix(es, i as int, Seq::<u8>::empty());
                assert(!name_taken(es.subrange(0, i as int), name@)) by {
                    if name_taken(es.subrange(0, i as int), name@) {
                        let j = choose|j: int| 0 <= j < i && (#[trigger] es.subrange(0, i as int)[j]).0 == name@;
                        assert(es[j].0 == es[i as int].0);
                    }
                }
            }
        }
        match zip_start_file(&mut w, text, *deflate) {
            Ok(()) => {},
            Err(m) => return Err(BuildFault::Entry(i, EntryFault::Zip(m))),
        }
        proof {
            if fine {
                lemma_small_prefix(es, i as int, data@);
                assert(Seq::<u8>::empty() + data@ =~= data@);
                assert(appended(writer_entries(w), data@) =~= es.subrange(0, i as int).push((name@, data@, *deflate)));
            }
        }
        match zip_write_all(&mut w, data.as_slice()) {
            Ok(()) => {},
            Err(m) => return Err(BuildFault::Entry(i, EntryFault::Zip(m))),
        }
        proof {
            assert(Seq::<u8>::empty() + data@ =~= data@);
            assert(writer_entries(w) =~= es.subrange(0, i + 1));
        }
        i += 1;
    }
    proof {
        assert(es.subrange(0, entries@.len() as int) =~= es);
    }
    match zip_finish(w) {
        Ok(b) => Ok(b),
        Err(m) => Err(BuildFault::Finish(m)),
    }
}

} // verus!
