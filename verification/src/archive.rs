//! Reading the parts of a .docx package (a ZIP archive).

use std::io::Read;
use vstd::prelude::*;

verus! {

#[verifier::external_type_specification]
#[verifier::external_body]
#[verifier::reject_recursive_types(T)]
pub struct ExCursor<T>(std::io::Cursor<T>);

#[verifier::external_type_specification]
#[verifier::external_body]
#[verifier::reject_recursive_types(R)]
pub struct ExZipArchive<R>(zip::ZipArchive<R>);

#[verifier::external_type_specification]
#[verifier::external_body]
pub struct ExZipError(zip::result::ZipError);

/// An open package, read from an in-memory copy of its bytes.
pub type Package = zip::ZipArchive<std::io::Cursor<Vec<u8>>>;

/// Whether `zip::ZipArchive::new` accepts `input` as a ZIP archive.
pub uninterp spec fn archive_opens(input: Seq<u8>) -> bool;

/// The bytes an open package reads from.
pub uninterp spec fn package_bytes(p: zip::ZipArchive<std::io::Cursor<Vec<u8>>>) -> Seq<u8>;

/// The text of the entry `name` of the ZIP archive `input`, as
/// `ZipArchive::by_name` followed by `Read::read_to_string` yields it; `None`
/// when there is no such entry or it cannot be read as UTF-8 text.
pub uninterp spec fn entry_text(input: Seq<u8>, name: Seq<char>) -> Option<Seq<char>>;

/// Opens `input` as a ZIP archive.
///
/// Calls `zip::ZipArchive::new` over a `std::io::Cursor` on a copy of the
/// bytes. Trusted: it succeeds exactly when `archive_opens` says, and the
/// package reads from those bytes. Nothing is stated of which inputs open.
#[verifier::external_body]
pub(crate) fn open_package(input: &[u8]) -> (res: Result<Package, zip::result::ZipError>)
    ensures
        res is Ok <==> archive_opens(input@),
        res matches Ok(p) ==> package_bytes(p) == input@,
{
    zip::ZipArchive::new(std::io::Cursor::new(input.to_vec()))
}

/// Reads the entry `name` of the package as text.
///
/// Calls `ZipArchive::by_name` and reads the entry with
/// `Read::read_to_string`. Trusted: the result is `entry_text` of the
/// package's bytes and the name, and reading leaves the package on the same
/// bytes. Nothing is stated of what a given entry holds.
#[verifier::external_body]
pub(crate) fn extract_string(archive: &mut Package, name: &str) -> (res: Option<String>)
    ensures
        package_bytes(*final(archive)) == package_bytes(*old(archive)),
        match res {
            Some(s) => entry_text(package_bytes(*old(archive)), name@) == Some(s@),
            None => entry_text(package_bytes(*old(archive)), name@) is None,
        },
{
    let mut file = archive.by_name(name).ok()?;
    let mut s = String::new();
    file.read_to_string(&mut s).ok()?;
    Some(s)
}

/// The message of a ZIP error.
///
/// Calls the `Display` impl of `zip::result::ZipError`; nothing is stated of
/// the text.
#[verifier::external_body]
pub(crate) fn zip_error_message(e: &zip::result::ZipError) -> String {
    e.to_string()
}

} // verus!
