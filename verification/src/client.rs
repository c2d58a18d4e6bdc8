//! Helpers of the command-line client: the payload of an uploaded file and
//! the one-shot signal it waits on.

use std::sync::Arc;
use std::sync::OnceLock;
use vstd::prelude::*;

verus! {

/// `std::sync::OnceLock`, a cell that is set at most once; its contents are
/// opaque here.
#[verifier::external_type_specification]
#[verifier::external_body]
#[verifier::reject_recursive_types(T)]
pub struct ExOnceLock<T>(OnceLock<T>);

/// `std::sync::OnceLock::new`: an empty cell. Nothing is claimed of the
/// result, whose contents are opaque here.
pub assume_specification<T>[ OnceLock::<T>::new ]() -> OnceLock<T>;

/// A shared cell, empty, for one thread to set once and another to wait on:
/// what it shares is a cell as `OnceLock::new` makes it.
pub fn one_shot_lock<T>() -> (r: Arc<OnceLock<T>>)
    ensures
        call_ensures(OnceLock::<T>::new, (), *r),
{
    let cell = OnceLock::new();
    Arc::new(cell)
}

/// The CRC-32 (IEEE) checksum of `data`, as `crc32fast::hash` computes it.
pub uninterp spec fn crc32_of(data: Seq<u8>) -> u32;

/// Calls `crc32fast::hash`. Its contract claims only that the result is the
/// checksum of the bytes given, a function of those bytes alone.
#[verifier::external_body]
fn crc32_hash(data: &[u8]) -> (h: u32)
    ensures
        h == crc32_of(data@),
{
    crc32fast::hash(data)
}

/// The bytes of an uploaded file with their checksum.
#[derive(Debug)]
pub struct FileContents {
    pub hash: u32,
    pub data: Vec<u8>,
}

/// The payload that uploads `data`: the bytes, unchanged, with their checksum.
pub fn file_contents(data: Vec<u8>) -> (c: FileContents)
    ensures
        c.hash == crc32_of(data@),
        c.data@ == data@,
{
    let hash = crc32_hash(data.as_slice());
    FileContents { hash, data }
}

} // verus!
