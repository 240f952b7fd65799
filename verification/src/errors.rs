//! Error kinds shared by the record codecs.

use vstd::prelude::*;

verus! {

/// One error kind for every way a decode, encode, parse or format call can
/// fail. Every codec function surfaces the first failure it meets; nothing is
/// retried or recovered internally.
#[derive(Debug, PartialEq, Eq, Clone)]
pub enum ProtoError {
    /// A required textual field was absent; carries the field's name.
    MissingToken(String),
    /// A numeric token failed range or format validation.
    MalformedNumber,
    /// The domain-name codec rejected its input; propagated unchanged.
    NameError,
    /// The cursor held fewer bytes than a fixed-width read required.
    BufferUnderflow,
    /// An encode write would not fit the field that carries it.
    BufferOverflow,
    /// A declared value length exceeded the bytes left in the record.
    UnterminatedValue,
}

impl ProtoError {
    /// True exactly on the `MissingToken` variant naming `field`.
    pub open spec fn is_missing_token(self, field: Seq<char>) -> bool {
        match self {
            ProtoError::MissingToken(f) => f@ == field,
            _ => false,
        }
    }
}

} // verus!
