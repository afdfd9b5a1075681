//! The text of a source file.
use vstd::prelude::*;
use vstd::utf8::*;

verus! {

/// The text that bytes stand for, with every sequence that is not valid UTF-8 replaced.
pub uninterp spec fn lossy_text(bytes: Seq<u8>) -> Seq<char>;

/// `String::from_utf8_lossy`: the text with every invalid sequence replaced. Valid bytes are
/// decoded as they are.
#[verifier::external_body]
fn decode_lossy(bytes: &[u8]) -> (r: String)
    ensures
        r@ == lossy_text(bytes@),
        valid_utf8(bytes@) ==> r@ == decode_utf8(bytes@),
{
    String::from_utf8_lossy(bytes).into_owned()
}

/// `std::str::from_utf8`: succeeds exactly on valid UTF-8.
#[verifier::external_body]
fn is_utf8(bytes: &[u8]) -> (r: bool)
    ensures
        r == valid_utf8(bytes@),
{
    std::str::from_utf8(bytes).is_ok()
}

/// The text of a source file, the number of its bytes, and whether some of them had to be
/// replaced.
#[derive(Debug)]
pub struct SourceFile {
    pub source: String,
    pub bytes: usize,
    pub decoded_lossy: bool,
}

/// Decodes the content of a source file.
pub fn decode_source(bytes: &[u8]) -> (r: SourceFile)
    ensures
        r.source@ == lossy_text(bytes@),
        valid_utf8(bytes@) ==> r.source@ == decode_utf8(bytes@),
        r.bytes == bytes@.len(),
        r.decoded_lossy == !valid_utf8(bytes@),
{
    SourceFile {
        source: decode_lossy(bytes),
        bytes: bytes.len(),
        decoded_lossy: !is_utf8(bytes),
    }
}

} // verus!
