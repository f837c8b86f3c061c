//! Input validation: oversized texts are rejected before any engine
//! work is spent on them.

use vstd::prelude::*;
use vstd::string::StringSliceAdditionalSpecFns;
use crate::errors::RedactrError;

verus! {

/// The longest text, in bytes, the service accepts.
pub const MAX_TEXT_LENGTH: usize = 10000;

/// Accept a text if and only if its byte length is at most
/// `MAX_TEXT_LENGTH`; an oversized text earns `TextTooLong` with its
/// length and the limit.
pub fn validate_text_length(text: &str) -> (r: Result<(), RedactrError>)
    ensures
        match r {
            Ok(_) => text.spec_bytes().len() as usize <= MAX_TEXT_LENGTH,
            Err(e) => text.spec_bytes().len() as usize > MAX_TEXT_LENGTH && e
                == RedactrError::TextTooLong(text.spec_bytes().len() as usize, MAX_TEXT_LENGTH),
        },
{
    if text.len() > MAX_TEXT_LENGTH {
        Err(RedactrError::TextTooLong(text.len(), MAX_TEXT_LENGTH))
    } else {
        Ok(())
    }
}

} // verus!
