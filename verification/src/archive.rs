//! Zip archives and Korean text encodings.
use crate::text::{contains_text, has_text, lossy, lossy_text, lowercase, lowered};
use vstd::prelude::*;

verus! {

/// How many members `zip::ZipArchive` finds in bytes, or the error it prints.
pub uninterp spec fn zip_count(bytes: Seq<u8>) -> Result<nat, Seq<char>>;

/// What `zip::ZipArchive::by_index` reads of a member, or the error it prints.
pub uninterp spec fn zip_member(bytes: Seq<u8>, i: int) -> Result<Seq<u8>, Seq<char>>;

/// Calls `zip::ZipArchive::new` and `len`. Claimed: the outcome depends on the bytes alone.
#[verifier::external_body]
pub(crate) fn member_count(bytes: &[u8]) -> (r: Result<usize, String>)
    ensures
        match zip_count(bytes@) {
            Ok(n) => r is Ok && r->Ok_0 == n,
            Err(m) => r is Err && (r->Err_0)@ == m,
        },
{
    match zip::ZipArchive::new(std::io::Cursor::new(bytes)) {
        Ok(a) => Ok(a.len()),
        Err(e) => Err(e.to_string()),
    }
}

/// Calls `zip::ZipArchive::new` and `by_index`, and reads the member to its end. Claimed: the
/// outcome depends on the bytes and the index alone.
#[verifier::external_body]
pub(crate) fn member_bytes(bytes: &[u8], i: usize) -> (r: Result<Vec<u8>, String>)
    ensures
        match zip_member(bytes@, i as int) {
            Ok(b) => r is Ok && (r->Ok_0)@ == b,
            Err(m) => r is Err && (r->Err_0)@ == m,
        },
{
    let mut a = zip::ZipArchive::new(std::io::Cursor::new(bytes)).map_err(|e| e.to_string())?;
    let mut file = a.by_index(i).map_err(|e| e.to_string())?;
    let mut out = Vec::new();
    std::io::Read::read_to_end(&mut file, &mut out).map_err(|e| e.to_string())?;
    Ok(out)
}

/// The first member of a zip archive.
pub fn unzip_first(bytes: &[u8]) -> (r: Result<Vec<u8>, String>)
    ensures
        match zip_member(bytes@, 0) {
            Ok(b) => r matches Ok(v) && v@ == b,
            Err(m) => r matches Err(e) && e@ == m,
        },
{
    member_bytes(bytes, 0)
}

/// What `encoding_rs::EUC_KR` decodes bytes to.
pub uninterp spec fn euc_kr_text(bytes: Seq<u8>) -> Seq<char>;

/// Calls `encoding_rs::EUC_KR.decode`. Claimed: the outcome depends on the bytes alone.
#[verifier::external_body]
pub(crate) fn decode_euc_kr(bytes: &[u8]) -> (r: String)
    ensures
        r@ == euc_kr_text(bytes@),
{
    encoding_rs::EUC_KR.decode(bytes).0.into_owned()
}

/// How many bytes of a document are looked at for its encoding.
pub const HEAD_BYTES: usize = 200;

/// The text of a document: Korean where its head names that encoding, else UTF-8.
pub open spec fn document_chars(raw: Seq<u8>) -> Seq<char> {
    let head = if raw.len() < HEAD_BYTES {
        raw
    } else {
        raw.take(HEAD_BYTES as int)
    };
    if has_text(lowered(lossy_text(head)), "euc-kr"@) {
        euc_kr_text(raw)
    } else {
        lossy_text(raw)
    }
}

/// Decodes a document.
pub fn decode_document(raw: &Vec<u8>) -> (r: String)
    ensures
        r@ == document_chars(raw@),
{
    let mut head: Vec<u8> = Vec::new();
    let mut i: usize = 0;
    while i < raw.len() && i < HEAD_BYTES
        invariant
            i <= raw@.len(),
            i <= HEAD_BYTES,
            head@ == raw@.take(i as int),
        decreases raw@.len() - i,
    {
        head.push(raw[i]);
        i += 1;
    }
    assert(raw@.take(raw@.len() as int) =~= raw@);
    let head = lowercase(lossy(&head).as_str());
    if contains_text(head.as_str(), "euc-kr") {
        decode_euc_kr(raw)
    } else {
        lossy(raw)
    }
}

} // verus!
