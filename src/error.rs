use vstd::prelude::*;

verus! {

/// The errors of the store.
#[derive(Debug, PartialEq, Eq)]
pub enum KvStoreError {
    /// The log could not be opened or written.
    FileOpenError {
        /// What went wrong.
        msg: String,
    },
    /// The given key is not in the store.
    KeyNotFound {
        /// The key that was asked for.
        key: String,
    },
    /// A record could not be encoded or decoded.
    CommandConvertError {
        /// What went wrong.
        msg: String,
    },
    /// The index pointed at something other than a `Set` record of its key.
    UnknownError {
        /// What went wrong.
        msg: String,
    },
}

} // verus!
