//! The byte format of the persisted snapshot, which the `postcard` crate defines.
//!
//! Nothing in this file is proved: each function states what the crate's
//! encoder and decoder are taken to do.

use vstd::prelude::*;

verus! {

/// The error type of the `postcard` crate; nothing is known of a value of it.
#[verifier::external_type_specification]
#[verifier::external_body]
pub struct ExPostcardError(postcard::Error);

/// The bytes that `postcard::to_stdvec` writes for a list of files, or `None`
/// where it reports an error.
pub uninterp spec fn postcard_encoding(files: Seq<(Seq<char>, Seq<(u128, Seq<u8>)>)>) -> Option<Seq<u8>>;

/// The list of files that `postcard::from_bytes` reads from `bytes`, or `None`
/// where it reports an error.
pub uninterp spec fn postcard_decoding(bytes: Seq<u8>) -> Option<Seq<(Seq<char>, Seq<(u128, Seq<u8>)>)>>;

/// Calls `postcard::to_stdvec` on a list of files. Taken on trust: the bytes
/// depend on the list alone, and `postcard::from_bytes` reads the same list
/// back from them.
#[verifier::external_body]
pub(crate) fn encode_files(files: &Vec<(String, Vec<(u128, Vec<u8>)>)>) -> (result: Result<
    Vec<u8>,
    postcard::Error,
>)
    ensures
        match result {
            Ok(bytes) => postcard_encoding(files.deep_view()) == Some(bytes@) && postcard_decoding(
                bytes@,
            ) == Some(files.deep_view()),
            Err(_) => postcard_encoding(files.deep_view()) is None,
        },
{
    postcard::to_stdvec(files)
}

/// Calls `postcard::from_bytes` for a list of files. Taken on trust: whether
/// it succeeds, and the list it returns, depend on the bytes alone.
#[verifier::external_body]
pub(crate) fn decode_files(bytes: &[u8]) -> (result: Result<
    Vec<(String, Vec<(u128, Vec<u8>)>)>,
    postcard::Error,
>)
    ensures
        match result {
            Ok(files) => postcard_decoding(bytes@) == Some(files.deep_view()),
            Err(_) => postcard_decoding(bytes@) is None,
        },
{
    postcard::from_bytes(bytes)
}

} // verus!
