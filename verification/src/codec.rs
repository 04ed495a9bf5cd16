//! Compressed bytes, and bytes that are taken for text.
use std::io::{Read, Write};
use vstd::prelude::*;
use vstd::utf8::{decode_utf8, valid_utf8};

verus! {

/// What `flate2` compresses some bytes to, or the text of its error.
pub uninterp spec fn gzip_of(data: Seq<u8>) -> Result<Seq<u8>, Seq<char>>;

/// What `flate2` finds in the first gzip member of some bytes, or the text of its error.
pub uninterp spec fn gunzip_of(data: Seq<u8>) -> Result<Seq<u8>, Seq<char>>;

/// The text that `String::from_utf8_lossy` makes of some bytes.
pub uninterp spec fn lossy_text(data: Seq<u8>) -> Seq<char>;

/// A result by its view.
pub open spec fn bytes_or_text(r: Result<Vec<u8>, String>) -> Result<Seq<u8>, Seq<char>> {
    match r {
        Ok(b) => Ok(b@),
        Err(e) => Err(e@),
    }
}

/// `flate2::write::GzEncoder`, at its default level, given all of the bytes and then
/// finished: one gzip member, out of which `flate2` reads the bytes back.
#[verifier::external_body]
pub(crate) fn gzip(data: &[u8]) -> (r: Result<Vec<u8>, String>)
    ensures
        bytes_or_text(r) == gzip_of(data@),
        r is Ok ==> gunzip_of(r->Ok_0@) is Ok && gunzip_of(r->Ok_0@)->Ok_0 == data@,
{
    let mut enc = flate2::write::GzEncoder::new(Vec::new(), flate2::Compression::default());
    match enc.write_all(data) {
        Ok(()) => enc.finish().map_err(|e| e.to_string()),
        Err(e) => Err(e.to_string()),
    }
}

/// `flate2::read::GzDecoder`, read to its end: the bytes of the first gzip member, or
/// the text of the error.
#[verifier::external_body]
pub(crate) fn gunzip(data: &[u8]) -> (r: Result<Vec<u8>, String>)
    ensures
        bytes_or_text(r) == gunzip_of(data@),
{
    let mut out = Vec::new();
    match flate2::read::GzDecoder::new(data).read_to_end(&mut out) {
        Ok(_) => Ok(out),
        Err(e) => Err(e.to_string()),
    }
}

/// `String::from_utf8_lossy`: the text that the bytes are the UTF-8 of, if they are
/// valid; else a text with replacement characters in it.
#[verifier::external_body]
pub(crate) fn text_of(data: &[u8]) -> (r: String)
    ensures
        r@ == lossy_text(data@),
        valid_utf8(data@) ==> r@ == decode_utf8(data@),
{
    String::from_utf8_lossy(data).into_owned()
}

/// Bytes are taken as they are, and an error by its text.
pub proof fn law_bytes_or_text(r: Result<Vec<u8>, String>)
    ensures
        r is Ok <==> bytes_or_text(r) is Ok,
        r is Ok ==> bytes_or_text(r)->Ok_0 == r->Ok_0@,
        r is Err ==> bytes_or_text(r)->Err_0 == r->Err_0@,
{
}

} // verus!
