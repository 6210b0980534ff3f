//! Blocks of the native store: the identifier of a block of bytes.
use vstd::prelude::*;
use vstd::string::*;

use crate::storage::StorageError;
use crate::text::{decimal_text, joined};

verus! {

/// The largest block in bytes.
pub const MAX_BLOCK_BYTES: usize = 2097152;

/// The text of the identifier that `ipfrs_core::Block::new` gives a block of
/// bytes.
pub uninterp spec fn block_cid_text(data: Seq<u8>) -> Seq<char>;

/// What is said of a block of a size that is not allowed.
pub open spec fn size_complaint(size: nat) -> Seq<char> {
    if size == 0 {
        "Invalid data: Block size 0 is below minimum 1"@
    } else {
        "Invalid data: Block size "@ + decimal_text(size) + " exceeds maximum 2097152 (2 MiB)"@
    }
}

/// Calls `ipfrs_core::Block::new` and takes the identifier of the block as
/// text. The call succeeds where the block is not empty and not larger than
/// the largest block; the text is a function of the bytes. Where it fails, the
/// error's text complains of the size.
#[verifier::external_body]
pub(crate) fn block_cid(data: &[u8]) -> (r: Result<String, String>)
    ensures
        r is Ok <==> 0 < data@.len() <= MAX_BLOCK_BYTES,
        match r {
            Ok(text) => text@ == block_cid_text(data@),
            Err(text) => text@ == size_complaint(data@.len()),
        },
{
    match ipfrs_core::Block::new(bytes::Bytes::copy_from_slice(data)) {
        Ok(block) => Ok(block.into_parts().0.to_string()),
        Err(error) => Err(error.to_string()),
    }
}

/// The identifier of a block of bytes, as text.
pub fn compute_cid(data: &[u8]) -> (r: Result<String, StorageError>)
    ensures
        r is Ok <==> 0 < data@.len() <= MAX_BLOCK_BYTES,
        match r {
            Ok(text) => text@ == block_cid_text(data@),
            Err(e) => e is Backend && e->Backend_0@ == "CID compute: "@ + size_complaint(
                data@.len(),
            ),
        },
{
    match block_cid(data) {
        Ok(text) => Ok(text),
        Err(text) => Err(StorageError::Backend(joined("CID compute: ", text.as_str()))),
    }
}

} // verus!
