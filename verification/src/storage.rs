//! Saving the app's data: why a save can fail, how the failure is worded
//! in the log, and which toast tells the user.

use vstd::prelude::*;
use crate::resource::Toast;
use crate::text::concat_str;

verus! {

/// The key under which the data is stored in the browser.
pub const STORAGE_KEY: &'static str = "cumulo_store";

/// Why the data could not be saved.
#[derive(Debug)]
pub enum SaveError {
    /// The data breaks the model's rules; the text lists the violations.
    Invalid(String),
    /// The browser's storage refused the write; the text is its error.
    Storage(String),
}

impl SaveError {
    /// The failure as logged: `invalid data: ...` or `storage error: ...`.
    pub fn message(&self) -> (r: String)
        ensures
            r@ == match self {
                SaveError::Invalid(e) => "invalid data: "@ + e@,
                SaveError::Storage(e) => "storage error: "@ + e@,
            },
    {
        match self {
            SaveError::Invalid(e) => concat_str("invalid data: ", e.as_str()),
            SaveError::Storage(e) => concat_str("storage error: ", e.as_str()),
        }
    }

    /// The toast that tells the user.
    pub fn toast(&self) -> (r: Toast)
        ensures
            r == match self {
                SaveError::Invalid(_) => Toast::SaveFailedInvalid,
                SaveError::Storage(_) => Toast::SaveFailedStorage,
            },
    {
        match self {
            SaveError::Invalid(_) => Toast::SaveFailedInvalid,
            SaveError::Storage(_) => Toast::SaveFailedStorage,
        }
    }
}

} // verus!
