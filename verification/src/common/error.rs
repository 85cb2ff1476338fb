//! The error type shared by every component.
use crate::common::text::{
    debug_bytes, debug_opt_text, debug_opt_u64, push_debug_bytes, push_debug_opt_text,
    push_debug_opt_u64,
};
use vstd::prelude::*;
use vstd::string::*;

verus! {

#[verifier::external_type_specification]
#[verifier::external_body]
pub struct ExIoError(std::io::Error);

/// The primary error type for all Dzong operations,
/// providing structured diagnostic context.
#[derive(Debug)]
pub enum DzongError {
    /// Errors related to disk I/O operations.
    Io(std::io::Error),
    /// Errors indicating data corruption or integrity failure.
    Corruption { message: String, file_id: Option<u64>, offset: Option<u64> },
    /// Errors occurring during serialization or deserialization.
    Codec { message: String, source_context: Option<String> },
    /// Errors indicating that a requested key was not found.
    NotFound { key: Vec<u8> },
    /// Errors indicating a violation of internal invariants.
    Invariant { message: String, context: Option<String> },
}

/// Builds the error for a read that ran past the end of its input: an I/O
/// error of kind `UnexpectedEof`, made by `std::io::Error::from`. Nothing is
/// stated of it: an I/O error is opaque here.
#[verifier::external_body]
pub(crate) fn unexpected_eof() -> (e: std::io::Error) {
    std::io::Error::from(std::io::ErrorKind::UnexpectedEof)
}

/// A specialized Result type for Dzong operations.
pub type Result<T> = core::result::Result<T, DzongError>;

/// The text of an optional string.
pub open spec fn opt_text(v: Option<String>) -> Option<Seq<char>> {
    match v {
        Some(t) => Some(t@),
        None => None,
    }
}

/// The message of an error that carries no I/O error, as its `Display`
/// rendering reads.
pub open spec fn error_text(e: DzongError) -> Seq<char> {
    match e {
        DzongError::Io(_) => "I/O error: "@,
        DzongError::Corruption { message, file_id, offset } => "Corruption: "@ + message@
            + " (file_id: "@ + debug_opt_u64(file_id) + ", offset: "@ + debug_opt_u64(offset)
            + ")"@,
        DzongError::Codec { message, source_context } => "Codec error: "@ + message@
            + " (source: "@ + debug_opt_text(opt_text(source_context)) + ")"@,
        DzongError::NotFound { key } => "Key not found: "@ + debug_bytes(key@),
        DzongError::Invariant { message, context } => "Internal invariant violation: "@
            + message@ + " (context: "@ + debug_opt_text(opt_text(context)) + ")"@,
    }
}

impl DzongError {
    /// The human-readable message of the error. For an I/O error it is the
    /// prefix `"I/O error: "` followed by that error's own message.
    pub fn to_string(&self) -> (r: String)
        ensures
            match self {
                DzongError::Io(e) => exists|t: String|
                    vstd::string::to_string_from_display_ensures::<std::io::Error>(e, t) && r@
                        == error_text(*self) + t@,
                _ => r@ == error_text(*self),
            },
    {
        proof {
            reveal_strlit("I/O error: ");
            reveal_strlit("Corruption: ");
            reveal_strlit(" (file_id: ");
            reveal_strlit(", offset: ");
            reveal_strlit(")");
            reveal_strlit("Codec error: ");
            reveal_strlit(" (source: ");
            reveal_strlit("Key not found: ");
            reveal_strlit("Internal invariant violation: ");
            reveal_strlit(" (context: ");
        }
        let mut s = String::new();
        match self {
            DzongError::Io(e) => {
                s.append("I/O error: ");
                let t = e.to_string();
                s.append(t.as_str());
                assert(s@ =~= error_text(*self) + t@);
            },
            DzongError::Corruption { message, file_id, offset } => {
                s.append("Corruption: ");
                s.append(message.as_str());
                s.append(" (file_id: ");
                push_debug_opt_u64(&mut s, *file_id);
                s.append(", offset: ");
                push_debug_opt_u64(&mut s, *offset);
                s.append(")");
                assert(s@ =~= error_text(*self));
            },
            DzongError::Codec { message, source_context } => {
                s.append("Codec error: ");
                s.append(message.as_str());
                s.append(" (source: ");
                push_debug_opt_text(&mut s, source_context);
                s.append(")");
                assert(s@ =~= error_text(*self));
            },
            DzongError::NotFound { key } => {
                s.append("Key not found: ");
                push_debug_bytes(&mut s, key.as_slice());
                assert(s@ =~= error_text(*self));
            },
            DzongError::Invariant { message, context } => {
                s.append("Internal invariant violation: ");
                s.append(message.as_str());
                s.append(" (context: ");
                push_debug_opt_text(&mut s, context);
                s.append(")");
                assert(s@ =~= error_text(*self));
            },
        }
        s
    }
}

impl From<std::io::Error> for DzongError {
    fn from(e: std::io::Error) -> (r: Self) {
        DzongError::Io(e)
    }
}

impl vstd::std_specs::convert::FromSpecImpl<std::io::Error> for DzongError {
    open spec fn obeys_from_spec() -> bool {
        true
    }

    open spec fn from_spec(e: std::io::Error) -> DzongError {
        DzongError::Io(e)
    }
}

} // verus!
