//! Copying a .docx package without its personal data: the metadata parts
//! are dropped and the XML parts scrubbed.

use std::io::{Read, Write};
use vstd::prelude::*;
use vstd::utf8::{decode_utf8, encode_utf8, valid_utf8};
use crate::archive::{archive_opens, open_package, package_bytes, zip_error_message, Package};
use crate::scrub::{scrub_xml, scrubbed};
use crate::text::{byte_len, same_text};

verus! {

#[verifier::external_type_specification]
#[verifier::external_body]
pub struct ExIoError(std::io::Error);

#[verifier::external_type_specification]
#[verifier::external_body]
pub struct ExFromUtf8Error(std::string::FromUtf8Error);

/// A package being written to memory: a `zip::ZipWriter` over an in-memory
/// cursor. Only the trusted functions below touch the writer; what has been
/// written so far is seen through `written_entries`.
#[verifier::external_body]
pub struct PackageWriter {
    inner: zip::ZipWriter<std::io::Cursor<Vec<u8>>>,
}

/// The number of entries of the ZIP archive `input` (`ZipArchive::len`).
pub uninterp spec fn entry_count(input: Seq<u8>) -> nat;

/// The name of entry `i` of the ZIP archive `input`, as
/// `ZipArchive::by_index` and `ZipFile::name` give it; `None` when
/// `by_index` fails.
pub uninterp spec fn entry_name_at(input: Seq<u8>, i: int) -> Option<Seq<char>>;

/// The bytes of entry `i` of the ZIP archive `input`, as
/// `ZipArchive::by_index` and `Read::read_to_end` give them; `None` when the
/// entry cannot be read.
pub uninterp spec fn entry_data_at(input: Seq<u8>, i: int) -> Option<Seq<u8>>;

/// The (name, bytes) entries written so far to a package writer. It says
/// nothing of a writer after a failed call; `strip_package` drops the
/// writer at the first failure.
pub uninterp spec fn written_entries(w: PackageWriter) -> Seq<(Seq<char>, Seq<u8>)>;

/// The bytes of the ZIP archive that `ZipWriter` makes of these entries,
/// each stored deflated. (The `zip` crate is built without its `time`
/// feature, so every entry carries the same default modification time and
/// the bytes depend on the entries alone.)
pub uninterp spec fn zip_encoding(entries: Seq<(Seq<char>, Seq<u8>)>) -> Seq<u8>;

/// An entry name fits in a ZIP header, which stores the length of its UTF-8
/// bytes in 16 bits.
pub open spec fn name_fits(name: Seq<char>) -> bool {
    byte_len(name) <= 65535
}

/// Whether `ZipWriter::start_file` succeeds in starting an entry `name` on a
/// writer that holds `entries`.
pub uninterp spec fn zip_starts(entries: Seq<(Seq<char>, Seq<u8>)>, name: Seq<char>) -> bool;

/// Whether `Write::write_all` of `data` succeeds on a writer that holds
/// `entries`, the last of them started.
pub uninterp spec fn zip_writes(entries: Seq<(Seq<char>, Seq<u8>)>, data: Seq<u8>) -> bool;

/// Whether `ZipWriter::finish` succeeds on a writer that holds `entries`.
pub uninterp spec fn zip_finishes(entries: Seq<(Seq<char>, Seq<u8>)>) -> bool;

/// The number of entries of a package.
///
/// Calls `ZipArchive::len`; trusted to be `entry_count` of its bytes.
#[verifier::external_body]
pub(crate) fn package_len(p: &Package) -> (n: usize)
    ensures
        n == entry_count(package_bytes(*p)),
{
    p.len()
}

/// The name of entry `i` of a package.
///
/// Calls `ZipArchive::by_index` and `ZipFile::name`. Trusted: the result is
/// `entry_name_at` of the package's bytes and `i`, and the package stays on
/// the same bytes; nothing is stated of what an entry is called.
#[verifier::external_body]
pub(crate) fn entry_name(p: &mut Package, i: usize) -> (res: Result<String, zip::result::ZipError>)
    ensures
        package_bytes(*final(p)) == package_bytes(*old(p)),
        match res {
            Ok(n) => entry_name_at(package_bytes(*old(p)), i as int) == Some(n@),
            Err(_) => entry_name_at(package_bytes(*old(p)), i as int) is None,
        },
{
    Ok(p.by_index(i)?.name().to_owned())
}

/// The bytes of entry `i` of a package.
///
/// Calls `ZipArchive::by_index` and `Read::read_to_end`. Trusted: the result
/// is `entry_data_at` of the package's bytes and `i`, and the package stays
/// on the same bytes; nothing is stated of what an entry holds.
#[verifier::external_body]
pub(crate) fn entry_content(p: &mut Package, i: usize) -> (res: Result<Vec<u8>, zip::result::ZipError>)
    ensures
        package_bytes(*final(p)) == package_bytes(*old(p)),
        match res {
            Ok(c) => entry_data_at(package_bytes(*old(p)), i as int) == Some(c@),
            Err(_) => entry_data_at(package_bytes(*old(p)), i as int) is None,
        },
{
    let mut entry = p.by_index(i)?;
    let mut content = Vec::new();
    entry.read_to_end(&mut content)?;
    Ok(content)
}

/// A writer of an empty package, in memory.
///
/// Calls `ZipWriter::new` on an empty `Cursor`; trusted to hold no entry.
#[verifier::external_body]
pub(crate) fn new_writer() -> (w: PackageWriter)
    ensures
        written_entries(w) == Seq::<(Seq<char>, Seq<u8>)>::empty(),
{
    PackageWriter { inner: zip::ZipWriter::new(std::io::Cursor::new(Vec::new())) }
}

/// Starts a new entry `name`, stored deflated.
///
/// Calls `ZipWriter::start_file` with deflate compression. Trusted: it
/// succeeds exactly when `zip_starts` says of the entries written so far and
/// the name (the writer writes to memory, so its outcome rests on those
/// alone: a name already written, or an archive past the ZIP size limits,
/// makes it fail), and on success an empty entry of that name is appended
/// to the written entries. Nothing is stated of which names it accepts.
#[verifier::external_body]
pub(crate) fn start_entry(w: &mut PackageWriter, name: &str) -> (res: Result<(), zip::result::ZipError>)
    requires
        name_fits(name@),
    ensures
        res is Ok <==> zip_starts(written_entries(*old(w)), name@),
        res is Ok ==> written_entries(*final(w)) == written_entries(*old(w)).push((name@, Seq::<u8>::empty())),
{
    let opts = zip::write::SimpleFileOptions::default().compression_method(zip::CompressionMethod::Deflated);
    w.inner.start_file(name, opts)
}

/// Writes `data` into the entry last started.
///
/// Calls `Write::write_all` on the writer. Trusted: it succeeds exactly
/// when `zip_writes` says of the entries written so far and the data (an
/// entry grown past the size limit of a non-ZIP64 entry makes it fail), and
/// on success the bytes are appended to the last written entry. Nothing is
/// stated of which data it accepts.
#[verifier::external_body]
pub(crate) fn write_bytes(w: &mut PackageWriter, data: &[u8]) -> (res: Result<(), std::io::Error>)
    requires
        written_entries(*old(w)).len() > 0,
    ensures
        res is Ok <==> zip_writes(written_entries(*old(w)), data@),
        res is Ok ==> written_entries(*final(w)) == written_entries(*old(w)).update(
            written_entries(*old(w)).len() - 1,
            (written_entries(*old(w)).last().0, written_entries(*old(w)).last().1 + data@),
        ),
{
    w.inner.write_all(data)
}

/// Adds the entry `name` with the bytes `data`.
fn add_entry(w: &mut PackageWriter, name: &str, data: &[u8]) -> (res: Result<(), String>)
    requires
        name_fits(name@),
    ensures
        res is Ok <==> zip_starts(written_entries(*old(w)), name@)
            && zip_writes(written_entries(*old(w)).push((name@, Seq::<u8>::empty())), data@),
        res is Ok ==> written_entries(*final(w)) == written_entries(*old(w)).push((name@, data@)),
{
    if let Err(e) = start_entry(w, name) {
        return Err(zip_error_message(&e));
    }
    let ghost started = written_entries(*w);
    match write_bytes(w, data) {
        Ok(()) => {
            assert(Seq::<u8>::empty() + data@ =~= data@);
            assert(written_entries(*w) =~= written_entries(*old(w)).push((name@, data@)));
            Ok(())
        },
        Err(e) => Err(io_error_message(&e)),
    }
}

/// The message of an I/O error.
///
/// Calls the `Display` impl of `std::io::Error`; nothing is stated of the
/// text.
#[verifier::external_body]
pub(crate) fn io_error_message(e: &std::io::Error) -> String {
    e.to_string()
}

/// Finishes the package and returns its bytes.
///
/// Calls `ZipWriter::finish` and `Cursor::into_inner`. Trusted: it
/// succeeds exactly when `zip_finishes` says of the written entries, and on
/// success the bytes are `zip_encoding` of them. Nothing is stated of which
/// entries it accepts.
#[verifier::external_body]
pub(crate) fn finish_writer(w: PackageWriter) -> (res: Result<Vec<u8>, zip::result::ZipError>)
    ensures
        res is Ok <==> zip_finishes(written_entries(w)),
        res matches Ok(b) ==> b@ == zip_encoding(written_entries(w)),
{
    Ok(w.inner.finish()?.into_inner())
}

/// Decodes UTF-8 bytes to text.
///
/// Calls `String::from_utf8`. Trusted: it succeeds exactly on valid UTF-8,
/// with the decoded characters.
#[verifier::external_body]
pub(crate) fn utf8_text(bytes: Vec<u8>) -> (res: Result<String, std::string::FromUtf8Error>)
    ensures
        res is Ok <==> valid_utf8(bytes@),
        res matches Ok(s) ==> s@ == decode_utf8(bytes@),
{
    String::from_utf8(bytes)
}

/// The message of a UTF-8 decoding error.
///
/// Calls the `Display` impl of `std::string::FromUtf8Error`; nothing is
/// stated of the text.
#[verifier::external_body]
pub(crate) fn utf8_error_message(e: &std::string::FromUtf8Error) -> String {
    e.to_string()
}

/// Why a package could not be cleaned.
#[derive(Debug)]
pub enum StripError {
    /// The input is not a ZIP archive, or an entry cannot be read.
    Archive(String),
    /// An XML part is not UTF-8 text.
    NotUtf8(String),
    /// The new package could not be written.
    Write(String),
}

impl StripError {
    /// The text of the error, as the command line shows it.
    pub fn message(&self) -> (res: String)
        ensures
            res@ == match self {
                StripError::Archive(m) => m@,
                StripError::NotUtf8(m) => m@,
                StripError::Write(m) => m@,
            },
    {
        match self {
            StripError::Archive(m) => m.clone(),
            StripError::NotUtf8(m) => m.clone(),
            StripError::Write(m) => m.clone(),
        }
    }
}

/// The metadata parts that carry personal data and are dropped.
pub open spec fn is_stripped_part(name: Seq<char>) -> bool {
    name == "docProps/core.xml"@ || name == "docProps/app.xml"@ || name == "docMetadata/LabelInfo.xml"@
}

/// `s` ends with `suffix`.
pub open spec fn ends_with(s: Seq<char>, suffix: Seq<char>) -> bool {
    suffix.len() <= s.len() && s.skip(s.len() - suffix.len()) == suffix
}

/// The parts that are scrubbed: XML and relationship parts.
pub open spec fn is_xml_part(name: Seq<char>) -> bool {
    ends_with(name, ".xml"@) || ends_with(name, ".rels"@)
}

/// What becomes of an entry: `None` when it cannot be processed (an XML
/// part that is not UTF-8 text), `Some(None)`
/// when it is dropped, `Some(Some(bytes))` with the bytes it is kept with.
pub open spec fn stripped_entry(name: Seq<char>, content: Seq<u8>) -> Option<Option<Seq<u8>>> {
    if is_stripped_part(name) {
        Some(None)
    } else if is_xml_part(name) {
        if valid_utf8(content) {
            Some(Some(encode_utf8(scrubbed(decode_utf8(content)))))
        } else {
            None
        }
    } else {
        Some(Some(content))
    }
}

/// Whether `name` is one of the dropped metadata parts.
pub fn is_stripped_part_name(name: &str) -> (res: bool)
    ensures
        res == is_stripped_part(name@),
{
    same_text(name, "docProps/core.xml") || same_text(name, "docProps/app.xml")
        || same_text(name, "docMetadata/LabelInfo.xml")
}

/// Whether `s` ends with `suffix`.
pub fn ends_with_text(s: &str, suffix: &str) -> (res: bool)
    ensures
        res == ends_with(s@, suffix@),
{
    let a = crate::text::chars_of(s);
    let b = crate::text::chars_of(suffix);
    if b.len() > a.len() {
        return false;
    }
    let n = a.len();
    let off = a.len() - b.len();
    let mut i: usize = 0;
    while i < b.len()
        invariant
            n == a@.len(),
            a@ == s@,
            b@ == suffix@,
            off + b@.len() == a@.len(),
            i <= b@.len(),
            forall|k: int| 0 <= k < i ==> a@[off + k] == b@[k],
        decreases b@.len() - i,
    {
        if a[off + i] != b[i] {
            assert(a@.skip(off as int)[i as int] != b@[i as int]);
            return false;
        }
        i = i + 1;
    }
    assert(a@.skip(off as int) =~= b@);
    true
}

/// Whether `name` is an XML or relationship part.
pub fn is_xml_part_name(name: &str) -> (res: bool)
    ensures
        res == is_xml_part(name@),
{
    ends_with_text(name, ".xml") || ends_with_text(name, ".rels")
}

/// Decides what becomes of one entry of the package, and scrubs it when it
/// is an XML part.
pub fn strip_entry(name: &str, content: Vec<u8>) -> (res: Result<Option<Vec<u8>>, StripError>)
    ensures
        match res {
            Ok(r) => stripped_entry(name@, content@) == Some(match r {
                Some(b) => Some(b@),
                None => None,
            }),
            Err(StripError::NotUtf8(_)) => is_xml_part(name@) && !is_stripped_part(name@) && !valid_utf8(content@),
            Err(_) => false,
        },
{
    if is_stripped_part_name(name) {
        return Ok(None);
    }
    if !is_xml_part_name(name) {
        return Ok(Some(content));
    }
    let xml = match utf8_text(content) {
        Ok(x) => x,
        Err(e) => return Err(StripError::NotUtf8(utf8_error_message(&e))),
    };
    let cleaned = scrub_xml(xml.as_str());
    Ok(Some(vstd::slice::slice_to_vec(cleaned.as_str().as_bytes())))
}

/// The entries of the cleaned package made from the first `n` entries of
/// `input`; `None` when one of them cannot be read or processed.
pub open spec fn stripped_upto(input: Seq<u8>, n: nat) -> Option<Seq<(Seq<char>, Seq<u8>)>>
    decreases n,
{
    if n == 0 {
        Some(Seq::empty())
    } else {
        match stripped_upto(input, (n - 1) as nat) {
            None => None,
            Some(es) => match entry_name_at(input, n - 1) {
                None => None,
                Some(name) => if is_stripped_part(name) {
                    Some(es)
                } else {
                    match entry_data_at(input, n - 1) {
                        None => None,
                        Some(content) => match stripped_entry(name, content) {
                            None => None,
                            Some(None) => Some(es),
                            Some(Some(b)) => Some(es.push((name, b))),
                        },
                    }
                },
            },
        }
    }
}

/// The entries of the cleaned package, in the order of the input package.
pub open spec fn stripped_entries(input: Seq<u8>) -> Option<Seq<(Seq<char>, Seq<u8>)>> {
    stripped_upto(input, entry_count(input))
}

/// The writer accepts the first `n` of `es`: each name fits in a ZIP header,
/// and starting each entry, and writing its bytes, succeeds on the entries
/// before it.
pub open spec fn writer_accepts_upto(es: Seq<(Seq<char>, Seq<u8>)>, n: nat) -> bool
    decreases n,
{
    n == 0 || {
        &&& writer_accepts_upto(es, (n - 1) as nat)
        &&& name_fits(es[n - 1].0)
        &&& zip_starts(es.take(n - 1), es[n - 1].0)
        &&& zip_writes(es.take(n - 1).push((es[n - 1].0, Seq::<u8>::empty())), es[n - 1].1)
    }
}

/// The writer accepts all of `es`, and finishing the package succeeds.
pub open spec fn writer_accepts(es: Seq<(Seq<char>, Seq<u8>)>) -> bool {
    writer_accepts_upto(es, es.len()) && zip_finishes(es)
}

proof fn lemma_stripped_none(input: Seq<u8>, n: nat, k: nat)
    requires
        n <= k,
        stripped_upto(input, n) is None,
    ensures
        stripped_upto(input, k) is None,
    decreases k,
{
    if k > n {
        lemma_stripped_none(input, n, (k - 1) as nat);
    }
}

/// What is made of the first `m` entries is a prefix of what is made of
/// the first `n >= m`.
proof fn lemma_stripped_prefix(input: Seq<u8>, m: nat, n: nat)
    requires
        m <= n,
        stripped_upto(input, n) is Some,
    ensures
        stripped_upto(input, m) is Some,
        stripped_upto(input, m)->Some_0.len() <= stripped_upto(input, n)->Some_0.len(),
        stripped_upto(input, n)->Some_0.take(stripped_upto(input, m)->Some_0.len() as int)
            == stripped_upto(input, m)->Some_0,
    decreases n,
{
    let es = stripped_upto(input, n)->Some_0;
    if m == n {
        assert(es.take(es.len() as int) =~= es);
    } else {
        lemma_stripped_prefix(input, m, (n - 1) as nat);
        let prev = stripped_upto(input, (n - 1) as nat)->Some_0;
        let em = stripped_upto(input, m)->Some_0;
        if es != prev {
            assert(es.take(em.len() as int) =~= prev.take(em.len() as int));
        }
    }
}

/// Whether the writer accepts the first `k` entries depends on those
/// entries alone.
proof fn lemma_accepts_same_prefix(es: Seq<(Seq<char>, Seq<u8>)>, fs: Seq<(Seq<char>, Seq<u8>)>, k: nat)
    requires
        k <= es.len(),
        k <= fs.len(),
        es.take(k as int) == fs.take(k as int),
    ensures
        writer_accepts_upto(es, k) == writer_accepts_upto(fs, k),
    decreases k,
{
    if k > 0 {
        assert(es.take(k - 1) =~= es.take(k as int).take(k - 1));
        assert(fs.take(k - 1) =~= fs.take(k as int).take(k - 1));
        assert(es[k - 1] == es.take(k as int)[k - 1]);
        assert(fs[k - 1] == fs.take(k as int)[k - 1]);
        lemma_accepts_same_prefix(es, fs, (k - 1) as nat);
    }
}

/// Accepting the first `n` entries means accepting the first `k <= n`.
proof fn lemma_accepts_fewer(es: Seq<(Seq<char>, Seq<u8>)>, k: nat, n: nat)
    requires
        k <= n,
        writer_accepts_upto(es, n),
    ensures
        writer_accepts_upto(es, k),
    decreases n,
{
    if k < n {
        lemma_accepts_fewer(es, k, (n - 1) as nat);
    }
}

/// Where the whole package is made and accepted by the writer, so is the
/// part of it made of the first `i` entries.
proof fn lemma_prefix_accepted(input: Seq<u8>, i: nat, n: nat)
    requires
        i <= n,
        stripped_upto(input, n) is Some,
        writer_accepts_upto(stripped_upto(input, n)->Some_0, stripped_upto(input, n)->Some_0.len()),
    ensures
        stripped_upto(input, i) is Some,
        writer_accepts_upto(stripped_upto(input, i)->Some_0, stripped_upto(input, i)->Some_0.len()),
{
    lemma_stripped_prefix(input, i, n);
    let es = stripped_upto(input, n)->Some_0;
    let ei = stripped_upto(input, i)->Some_0;
    lemma_accepts_fewer(es, ei.len(), es.len());
    assert(ei.take(ei.len() as int) =~= ei);
    lemma_accepts_same_prefix(es, ei, ei.len());
}

/// The message of an entry whose name is too long for a ZIP header.
fn name_too_long_message() -> String {
    "an entry name is longer than a ZIP header allows (65535 bytes)".to_owned()
}

/// Writes a copy of the package `input` without its personal data: the metadata
/// parts are dropped, the XML parts scrubbed, the other parts kept as they
/// are, in their order.
pub fn strip_package(input: &[u8]) -> (res: Result<Vec<u8>, StripError>)
    ensures
        match res {
            Ok(b) => archive_opens(input@) && stripped_entries(input@) is Some
                && writer_accepts(stripped_entries(input@)->Some_0)
                && b@ == zip_encoding(stripped_entries(input@)->Some_0),
            Err(StripError::Archive(_)) => !archive_opens(input@) || stripped_entries(input@) is None,
            Err(StripError::NotUtf8(_)) => archive_opens(input@) && stripped_entries(input@) is None,
            Err(StripError::Write(_)) => archive_opens(input@) && (stripped_entries(input@) is None
                || !writer_accepts(stripped_entries(input@)->Some_0)),
        },
        archive_opens(input@) && stripped_entries(input@) is Some
            && writer_accepts(stripped_entries(input@)->Some_0) ==> res is Ok,
{
    let mut archive = match open_package(input) {
        Ok(a) => a,
        Err(e) => return Err(StripError::Archive(zip_error_message(&e))),
    };
    let ghost bytes = package_bytes(archive);
    let n = package_len(&archive);
    let mut writer = new_writer();
    let mut i: usize = 0;
    while i < n
        invariant
            bytes == input@,
            archive_opens(input@),
            package_bytes(archive) == bytes,
            n == entry_count(bytes),
            i <= n,
            stripped_upto(bytes, i as nat) == Some(written_entries(writer)),
            writer_accepts_upto(written_entries(writer), written_entries(writer).len()),
        decreases n - i,
    {
        let ghost written = written_entries(writer);
        let name = match entry_name(&mut archive, i) {
            Ok(m) => m,
            Err(e) => {
                proof { lemma_stripped_none(bytes, (i + 1) as nat, n as nat); }
                return Err(StripError::Archive(zip_error_message(&e)));
            },
        };
        if !is_stripped_part_name(name.as_str()) {
            let content = match entry_content(&mut archive, i) {
                Ok(c) => c,
                Err(e) => {
                    proof { lemma_stripped_none(bytes, (i + 1) as nat, n as nat); }
                    return Err(StripError::Archive(zip_error_message(&e)));
                },
            };
            let ghost c0 = content@;
            match strip_entry(name.as_str(), content) {
                Ok(None) => {},
                Ok(Some(b)) => {
                    let ghost next = written.push((name@, b@));
                    assert(stripped_upto(bytes, (i + 1) as nat) == Some(next));
                    let name_bytes = name.as_str().as_bytes().len();
                    assert(name_bytes == byte_len(name@));
                    if name_bytes > 65535 {
                        proof {
                            assert(next[written.len() as int] == (name@, b@));
                            assert(!writer_accepts_upto(next, next.len()));
                            if stripped_entries(bytes) is Some && writer_accepts(stripped_entries(bytes)->Some_0) {
                                lemma_prefix_accepted(bytes, (i + 1) as nat, n as nat);
                            }
                        }
                        return Err(StripError::Write(name_too_long_message()));
                    }
                    match add_entry(&mut writer, name.as_str(), b.as_slice()) {
                        Ok(()) => {
                            proof {
                                assert(next.take(written.len() as int) =~= written);
                                assert(written.take(written.len() as int) =~= written);
                                lemma_accepts_same_prefix(next, written, written.len());
                                assert(next[written.len() as int] == (name@, b@));
                            }
                        },
                        Err(m) => {
                            proof {
                                assert(next.take(written.len() as int) =~= written);
                                assert(next[written.len() as int] == (name@, b@));
                                assert(!writer_accepts_upto(next, next.len()));
                                if stripped_entries(bytes) is Some && writer_accepts(stripped_entries(bytes)->Some_0) {
                                    lemma_prefix_accepted(bytes, (i + 1) as nat, n as nat);
                                }
                            }
                            return Err(StripError::Write(m));
                        },
                    }
                },
                Err(e) => {
                    assert(stripped_entry(name@, c0) is None);
                    assert(stripped_upto(bytes, (i + 1) as nat) is None);
                    proof { lemma_stripped_none(bytes, (i + 1) as nat, n as nat); }
                    return Err(e);
                },
            }
        }
        i = i + 1;
    }
    match finish_writer(writer) {
        Ok(b) => Ok(b),
        Err(e) => Err(StripError::Write(zip_error_message(&e))),
    }
}

proof fn lemma_no_metadata_upto(input: Seq<u8>, n: nat)
    ensures
        stripped_upto(input, n) matches Some(es) ==> forall|i: int| 0 <= i < es.len() ==> !is_stripped_part(#[trigger] es[i].0),
    decreases n,
{
    if n > 0 {
        lemma_no_metadata_upto(input, (n - 1) as nat);
        if let Some(es) = stripped_upto(input, (n - 1) as nat) {
            if let (Some(name), Some(content)) = (entry_name_at(input, n - 1), entry_data_at(input, n - 1)) {
                if let Some(Some(b)) = stripped_entry(name, content) {
                    let es2 = es.push((name, b));
                    assert forall|i: int| 0 <= i < es2.len() implies !is_stripped_part(#[trigger] es2[i].0) by {
                        if i < es.len() {
                            assert(es2[i] == es[i]);
                        }
                    }
                }
            }
        }
    }
}

/// The cleaned package holds none of the dropped metadata parts.
pub proof fn lemma_no_metadata_kept(input: Seq<u8>)
    ensures
        stripped_entries(input) matches Some(es) ==> forall|i: int| 0 <= i < es.len() ==> !is_stripped_part(#[trigger] es[i].0),
{
    lemma_no_metadata_upto(input, entry_count(input));
}

/// The cleaned package holds no `docProps/core.xml`, `docProps/app.xml` or
/// `docMetadata/LabelInfo.xml`, whatever the input package holds.
pub proof fn lemma_metadata_parts_dropped(input: Seq<u8>)
    ensures
        stripped_entries(input) matches Some(es) ==> forall|i: int| 0 <= i < es.len() ==> {
            &&& (#[trigger] es[i]).0 != "docProps/core.xml"@
            &&& es[i].0 != "docProps/app.xml"@
            &&& es[i].0 != "docMetadata/LabelInfo.xml"@
        },
{
    lemma_no_metadata_kept(input);
    if let Some(es) = stripped_entries(input) {
        assert forall|i: int| 0 <= i < es.len() implies {
            &&& (#[trigger] es[i]).0 != "docProps/core.xml"@
            &&& es[i].0 != "docProps/app.xml"@
            &&& es[i].0 != "docMetadata/LabelInfo.xml"@
        } by {
            assert(!is_stripped_part(es[i].0));
        }
    }
}

/// What becomes of one entry, with the names written out: the three
/// metadata parts are dropped; a part whose name ends in `.xml` or `.rels`
/// is kept scrubbed when it is UTF-8 text, and refused when it is not; any
/// other part is kept byte for byte.
pub proof fn lemma_entry_fates(name: Seq<char>, content: Seq<u8>)
    ensures
        name == "docProps/core.xml"@ || name == "docProps/app.xml"@ || name == "docMetadata/LabelInfo.xml"@
            ==> stripped_entry(name, content) == Some(None::<Seq<u8>>),
        !(name == "docProps/core.xml"@ || name == "docProps/app.xml"@ || name == "docMetadata/LabelInfo.xml"@)
            && ((name.len() >= 4 && name.subrange(name.len() - 4, name.len() as int) == ".xml"@)
                || (name.len() >= 5 && name.subrange(name.len() - 5, name.len() as int) == ".rels"@))
            ==> stripped_entry(name, content) == if valid_utf8(content) {
                Some(Some(encode_utf8(scrubbed(decode_utf8(content)))))
            } else {
                None
            },
        !(name == "docProps/core.xml"@ || name == "docProps/app.xml"@ || name == "docMetadata/LabelInfo.xml"@)
            && !(name.len() >= 4 && name.subrange(name.len() - 4, name.len() as int) == ".xml"@)
            && !(name.len() >= 5 && name.subrange(name.len() - 5, name.len() as int) == ".rels"@)
            ==> stripped_entry(name, content) == Some(Some(content)),
{
    reveal_strlit(".xml");
    reveal_strlit(".rels");
    assert(name.len() >= 4 ==> name.skip(name.len() - 4) =~= name.subrange(name.len() - 4, name.len() as int));
    assert(name.len() >= 5 ==> name.skip(name.len() - 5) =~= name.subrange(name.len() - 5, name.len() as int));
}

/// A part that is neither dropped nor XML is kept byte for byte.
pub proof fn lemma_other_parts_kept(name: Seq<char>, content: Seq<u8>)
    requires
        !is_stripped_part(name),
        !is_xml_part(name),
    ensures
        stripped_entry(name, content) == Some(Some(content)),
{
}

} // verus!
