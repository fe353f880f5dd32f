//! The broker's error taxonomy.

use vstd::prelude::*;

verus! {

/// Errors surfaced by the broker and by handlers.
#[derive(Debug)]
pub enum ZbusError {
    /// An object-id string held more than one `'@'` separator.
    BadObjectID,
    /// A payload was not a valid wire envelope.
    DecodeError,
    /// A value could not be encoded for the wire.
    EncodeError,
    /// Any other failure, carrying its description.
    E(String),
}

/// The human-readable description of an error, as [`ZbusError::message`]
/// returns it.
pub open spec fn error_message(e: ZbusError) -> Seq<char> {
    match e {
        ZbusError::BadObjectID => "Could not parse object ID"@,
        ZbusError::DecodeError => "Decoding failed"@,
        ZbusError::EncodeError => "Encoding failed"@,
        ZbusError::E(s) => s@,
    }
}

impl ZbusError {
    /// Describes the error in one line.
    pub fn message(&self) -> (s: String)
        ensures
            s@ == error_message(*self),
    {
        match self {
            ZbusError::BadObjectID => "Could not parse object ID".to_owned(),
            ZbusError::DecodeError => "Decoding failed".to_owned(),
            ZbusError::EncodeError => "Encoding failed".to_owned(),
            ZbusError::E(s) => s.clone(),
        }
    }
}

impl From<String> for ZbusError {
    /// Wraps a description into [`ZbusError::E`].
    fn from(s: String) -> (r: ZbusError) {
        ZbusError::E(s)
    }
}

impl vstd::std_specs::convert::FromSpecImpl<String> for ZbusError {
    open spec fn obeys_from_spec() -> bool {
        true
    }

    open spec fn from_spec(s: String) -> ZbusError {
        ZbusError::E(s)
    }
}

} // verus!
