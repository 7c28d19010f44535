//! The command dispatcher: maps the opcode byte of a request to a store
//! operation, and encodes the response envelope.

use vstd::prelude::*;
use crate::bytes::{append_bytes, copy_range};
use crate::codec::{encode_u64_le, u64_le};
use crate::errors::StoreError;
use crate::store::{
    get_applied, get_events_applied, get_fetch_failures_applied, put_applied, put_event_applied,
    put_fetch_failure_applied, store_unchanged, Store,
};

verus! {

/// The operations of the protocol, plus an explicit case for an opcode that
/// names none of them.
pub enum Command {
    Put,
    Get,
    PutEvent,
    GetEvents,
    GetAllEvents,
    PutFetchFailure,
    GetFetchFailures,
    Unknown,
}

/// The operation selected by an opcode byte.
pub open spec fn command_of(b: u8) -> Command {
    if b == 0 {
        Command::Put
    } else if b == 1 {
        Command::Get
    } else if b == 2 {
        Command::PutEvent
    } else if b == 3 {
        Command::GetEvents
    } else if b == 4 {
        Command::GetAllEvents
    } else if b == 5 {
        Command::PutFetchFailure
    } else if b == 6 {
        Command::GetFetchFailures
    } else {
        Command::Unknown
    }
}

impl Command {
    /// Reads the operation an opcode byte selects.
    pub fn from_opcode(b: u8) -> (r: Command)
        ensures
            r == command_of(b),
    {
        match b {
            0 => Command::Put,
            1 => Command::Get,
            2 => Command::PutEvent,
            3 => Command::GetEvents,
            4 => Command::GetAllEvents,
            5 => Command::PutFetchFailure,
            6 => Command::GetFetchFailures,
            _ => Command::Unknown,
        }
    }
}

/// What one dispatched request does to the store and reports back, given the
/// clock reading `now`.
pub open spec fn dispatch_applied(
    pre: Store,
    post: Store,
    msg: Seq<u8>,
    now: u64,
    r: Result<Vec<u8>, StoreError>,
) -> bool {
    if msg.len() == 0 {
        store_unchanged(pre, post) && match r {
            Ok(_) => false,
            Err(e) => e is EmptyMessage,
        }
    } else {
        let payload = msg.skip(1);
        match command_of(msg[0]) {
            Command::Put => put_applied(pre, post, payload, r),
            Command::Get => store_unchanged(pre, post) && get_applied(pre, payload, r),
            Command::PutEvent => put_event_applied(pre, post, payload, now, r),
            Command::GetEvents => store_unchanged(pre, post) && get_events_applied(
                pre,
                payload,
                false,
                now,
                r,
            ),
            Command::GetAllEvents => store_unchanged(pre, post) && get_events_applied(
                pre,
                payload,
                true,
                now,
                r,
            ),
            Command::PutFetchFailure => put_fetch_failure_applied(pre, post, payload, now, r),
            Command::GetFetchFailures => store_unchanged(pre, post) && get_fetch_failures_applied(
                pre,
                now,
                r,
            ),
            Command::Unknown => store_unchanged(pre, post) && match r {
                Ok(_) => false,
                Err(e) => e is UnknownCommand,
            },
        }
    }
}

/// Dispatches one request against the store, with the clock reading supplied
/// by the caller.
pub fn process_msg_at(msg: &Vec<u8>, store: &mut Store, now_micros: u64) -> (r: Result<
    Vec<u8>,
    StoreError,
>)
    requires
        old(store).wf(),
    ensures
        final(store).wf(),
        dispatch_applied(*old(store), *final(store), msg@, now_micros, r),
{
    if msg.len() == 0 {
        return Err(StoreError::EmptyMessage);
    }
    let payload = copy_range(msg, 1, msg.len());
    proof {
        assert(payload@ =~= msg@.skip(1));
    }
    match Command::from_opcode(msg[0]) {
        Command::Put => store.put(&payload),
        Command::Get => store.get(&payload),
        Command::PutEvent => store.put_event_at(&payload, now_micros),
        Command::GetEvents => store.get_events_at(&payload, false, now_micros),
        Command::GetAllEvents => store.get_events_at(&payload, true, now_micros),
        Command::PutFetchFailure => store.put_fetch_failure_at(&payload, now_micros),
        Command::GetFetchFailures => store.get_fetch_failures_at(now_micros),
        Command::Unknown => Err(StoreError::UnknownCommand),
    }
}

/// Dispatches one request, reading the clock for the operations that stamp or
/// scan by time.
pub fn process_msg(msg: &Vec<u8>, store: &mut Store) -> (r: Result<Vec<u8>, StoreError>)
    requires
        old(store).wf(),
    ensures
        final(store).wf(),
        exists|now: u64| dispatch_applied(*old(store), *final(store), msg@, now, r),
{
    if msg.len() == 0 {
        let r: Result<Vec<u8>, StoreError> = Err(StoreError::EmptyMessage);
        proof {
            assert(dispatch_applied(*old(store), *store, msg@, 0u64, r));
        }
        return r;
    }
    let payload = copy_range(msg, 1, msg.len());
    proof {
        assert(payload@ =~= msg@.skip(1));
    }
    match Command::from_opcode(msg[0]) {
        Command::Put => {
            let r = store.put(&payload);
            proof {
                assert(dispatch_applied(*old(store), *store, msg@, 0u64, r));
            }
            r
        },
        Command::Get => {
            let r = store.get(&payload);
            proof {
                assert(dispatch_applied(*old(store), *store, msg@, 0u64, r));
            }
            r
        },
        Command::PutEvent => {
            let r = store.put_event(&payload);
            proof {
                let w = choose|now: u64| put_event_applied(*old(store), *store, payload@, now, r);
                assert(dispatch_applied(*old(store), *store, msg@, w, r));
            }
            r
        },
        Command::GetEvents => {
            let r = store.get_events(&payload, false);
            proof {
                let w = choose|now: u64|
                    get_events_applied(*old(store), payload@, false, now, r);
                assert(dispatch_applied(*old(store), *store, msg@, w, r));
            }
            r
        },
        Command::GetAllEvents => {
            let r = store.get_events(&payload, true);
            proof {
                let w = choose|now: u64| get_events_applied(*old(store), payload@, true, now, r);
                assert(dispatch_applied(*old(store), *store, msg@, w, r));
            }
            r
        },
        Command::PutFetchFailure => {
            let r = store.put_fetch_failure(&payload);
            proof {
                let w = choose|now: u64|
                    put_fetch_failure_applied(*old(store), *store, payload@, now, r);
                assert(dispatch_applied(*old(store), *store, msg@, w, r));
            }
            r
        },
        Command::GetFetchFailures => {
            let r = store.get_fetch_failures();
            proof {
                let w = choose|now: u64| get_fetch_failures_applied(*old(store), now, r);
                assert(dispatch_applied(*old(store), *store, msg@, w, r));
            }
            r
        },
        Command::Unknown => {
            let r: Result<Vec<u8>, StoreError> = Err(StoreError::UnknownCommand);
            proof {
                assert(dispatch_applied(*old(store), *store, msg@, 0u64, r));
            }
            r
        },
    }
}

/// The wire shape of a response: a zero status byte before a success payload,
/// a one status byte before the length-prefixed error message.
pub open spec fn response_bytes(r: Result<Vec<u8>, StoreError>) -> Seq<u8> {
    match r {
        Ok(v) => seq![0u8] + v@,
        Err(e) => seq![1u8] + u64_le(e.message_bytes().len() as u64) + e.message_bytes(),
    }
}

/// Encodes a response: status byte zero then the result bytes on success;
/// status byte one then the serialized error message on failure.  An error
/// payload is never empty.
pub fn encode_response(r: &Result<Vec<u8>, StoreError>) -> (out: Vec<u8>)
    ensures
        out@ == response_bytes(*r),
        r is Err ==> out@.len() > 9,
{
    match r {
        Ok(v) => {
            let mut out: Vec<u8> = Vec::new();
            out.push(0);
            append_bytes(&mut out, v);
            proof {
                assert(out@ =~= response_bytes(*r));
            }
            out
        },
        Err(e) => {
            let msg = e.message();
            let mut out: Vec<u8> = Vec::new();
            out.push(1);
            let len_bytes = encode_u64_le(msg.len() as u64);
            append_bytes(&mut out, &len_bytes);
            append_bytes(&mut out, &msg);
            proof {
                assert(out@ =~= response_bytes(*r));
            }
            out
        },
    }
}

} // verus!
