//! The dispatcher's failure modes.  Every kind collapses to the same error
//! response shape on the wire: a status byte of one, then the serialized
//! message.

use vstd::prelude::*;

verus! {

/// What can go wrong while serving one request: an empty request or an
/// unrecognized opcode (protocol errors), or a payload that cannot be parsed
/// into the shape its opcode expects (decode errors).
#[derive(Debug)]
pub enum StoreError {
    EmptyMessage,
    UnknownCommand,
    MalformedPayload,
}

impl StoreError {
    /// The ASCII bytes of the human-readable message reported to the caller:
    /// "invalid message length", "unknown command", or "malformed payload".
    pub open spec fn message_bytes(self) -> Seq<u8> {
        match self {
            StoreError::EmptyMessage => seq![
                105u8, 110, 118, 97, 108, 105, 100, 32, 109, 101, 115, 115, 97, 103, 101, 32, 108,
                101, 110, 103, 116, 104,
            ],
            StoreError::UnknownCommand => seq![
                117u8, 110, 107, 110, 111, 119, 110, 32, 99, 111, 109, 109, 97, 110, 100,
            ],
            StoreError::MalformedPayload => seq![
                109u8, 97, 108, 102, 111, 114, 109, 101, 100, 32, 112, 97, 121, 108, 111, 97, 100,
            ],
        }
    }

    /// Builds the message bytes; the message is never empty.
    pub fn message(&self) -> (r: Vec<u8>)
        ensures
            r@ == self.message_bytes(),
            r@.len() > 0,
    {
        let r: Vec<u8> = match self {
            StoreError::EmptyMessage => vec![
                105u8, 110, 118, 97, 108, 105, 100, 32, 109, 101, 115, 115, 97, 103, 101, 32, 108,
                101, 110, 103, 116, 104,
            ],
            StoreError::UnknownCommand => vec![
                117u8, 110, 107, 110, 111, 119, 110, 32, 99, 111, 109, 109, 97, 110, 100,
            ],
            StoreError::MalformedPayload => vec![
                109u8, 97, 108, 102, 111, 114, 109, 101, 100, 32, 112, 97, 121, 108, 111, 97, 100,
            ],
        };
        proof {
            assert(r@ =~= self.message_bytes());
        }
        r
    }
}

} // verus!
