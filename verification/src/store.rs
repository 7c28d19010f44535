//! The store facade: the three namespaces, the two retention windows, and the
//! time-series write and scan paths over them.
//!
//! A time-stamped record is a byte blob whose first eight bytes hold its
//! ingest timestamp, little-endian, in microseconds; the store overwrites
//! that field at write time and never reads any other part of the record.

use vstd::prelude::*;
use crate::bytes::{append_bytes, clone_bytes, copy_range};
use crate::codec::{
    build_envelope, decode_field_at, decode_kv, encode_u64_le, envelope_spec, field_spec, kv_spec,
    lemma_u64_le_round_trip, u64_le, u64_of_le8,
};
use crate::errors::StoreError;
use crate::namespace::{
    insert_entry, lemma_insert_entry, lemma_lookup_none_iff, lemma_scan_entries_props,
    lemma_scan_from_start, lookup, scan_entries, sorted_keys, Namespace,
};
use crate::timekey::{
    all_dec_digits, dec_digits, dec_val, lemma_dec_order_iff, lex_le, lex_lt, parse_dec,
    u64_to_dec,
};

verus! {

/// Relies on std::time::SystemTime::now and duration_since for the
/// microseconds of the wall clock since the Unix epoch.  Nothing is assumed
/// of the reading: callers state what holds of every value.
#[verifier::external_body]
fn system_micros() -> u64 {
    match std::time::SystemTime::now().duration_since(std::time::UNIX_EPOCH) {
        Ok(d) => d.as_micros() as u64,
        Err(_) => 0,
    }
}

/// A record's ingest timestamp: its first eight bytes, little-endian.
pub open spec fn record_ts(r: Seq<u8>) -> u64
    recommends
        r.len() >= 8,
{
    u64_of_le8(r.subrange(0, 8))
}

/// The record with its timestamp field overwritten by `t`.
pub open spec fn stamp_record(r: Seq<u8>, t: u64) -> Seq<u8>
    recommends
        r.len() >= 8,
{
    u64_le(t) + r.skip(8)
}

/// An entry of a time-ordered namespace: the key is the decimal string of the
/// stored record's own ingest timestamp.
pub open spec fn stamped_entry(e: (Seq<u8>, Seq<u8>)) -> bool {
    e.1.len() >= 8 && e.0 == dec_digits(record_ts(e.1) as nat)
}

pub open spec fn stamped(s: Seq<(Seq<u8>, Seq<u8>)>) -> bool {
    forall|i: int| 0 <= i < s.len() ==> stamped_entry(#[trigger] s[i])
}

/// The values of a sequence of entries, in entry order.
pub open spec fn values_of(s: Seq<(Seq<u8>, Seq<u8>)>) -> Seq<Seq<u8>> {
    s.map_values(|e: (Seq<u8>, Seq<u8>)| e.1)
}

/// The look-back cutoff for a retention window, saturating at zero.
pub open spec fn cutoff_of(now: u64, threshold: u64) -> u64 {
    if now >= threshold {
        (now - threshold) as u64
    } else {
        0
    }
}

/// The value a point get reports: the stored bytes, or empty bytes when the
/// key is absent.
pub open spec fn lookup_or_empty(s: Seq<(Seq<u8>, Seq<u8>)>, k: Seq<u8>) -> Seq<u8> {
    match lookup(s, k) {
        Some(v) => v,
        None => Seq::empty(),
    }
}

/// The seek key of an event scan: the start of the namespace for a get-all,
/// the retention cutoff when no cursor is supplied, and the successor of the
/// cursor otherwise.  `None` is a malformed or overflowing cursor.
pub open spec fn events_seek_spec(payload: Seq<u8>, get_all: bool, now: u64, threshold: u64) -> Option<
    Seq<u8>,
> {
    if get_all {
        Some(Seq::empty())
    } else if payload.len() == 0 {
        Some(dec_digits(cutoff_of(now, threshold) as nat))
    } else {
        match field_spec(payload, 0) {
            None => None,
            Some(f) => if f.0.len() > 0 && all_dec_digits(f.0) && dec_val(f.0) < u64::MAX {
                Some(dec_digits((dec_val(f.0) + 1) as nat))
            } else {
                None
            },
        }
    }
}

/// The store: the three namespaces and the two retention windows.
pub struct Store {
    default_ns: Namespace,
    events_ns: Namespace,
    failures_ns: Namespace,
    event_threshold_micros: u64,
    fetch_failure_threshold_micros: u64,
}

impl Store {
    pub closed spec fn default_entries(self) -> Seq<(Seq<u8>, Seq<u8>)> {
        self.default_ns@
    }

    pub closed spec fn event_entries(self) -> Seq<(Seq<u8>, Seq<u8>)> {
        self.events_ns@
    }

    pub closed spec fn failure_entries(self) -> Seq<(Seq<u8>, Seq<u8>)> {
        self.failures_ns@
    }

    pub closed spec fn event_threshold(self) -> u64 {
        self.event_threshold_micros
    }

    pub closed spec fn fetch_failure_threshold(self) -> u64 {
        self.fetch_failure_threshold_micros
    }

    /// The store invariant: every namespace is sorted, and the two
    /// time-ordered namespaces key each record by its own timestamp.
    pub open spec fn wf(self) -> bool {
        &&& sorted_keys(self.default_entries())
        &&& sorted_keys(self.event_entries())
        &&& sorted_keys(self.failure_entries())
        &&& stamped(self.event_entries())
        &&& stamped(self.failure_entries())
    }
}

pub open spec fn thresholds_unchanged(pre: Store, post: Store) -> bool {
    &&& post.event_threshold() == pre.event_threshold()
    &&& post.fetch_failure_threshold() == pre.fetch_failure_threshold()
}

pub open spec fn store_unchanged(pre: Store, post: Store) -> bool {
    &&& post.default_entries() == pre.default_entries()
    &&& post.event_entries() == pre.event_entries()
    &&& post.failure_entries() == pre.failure_entries()
    &&& thresholds_unchanged(pre, post)
}

/// What a put does: on a decodable pair the key now holds the value and the
/// raw key bytes come back; otherwise nothing changes and a decode error is
/// reported.
pub open spec fn put_applied(
    pre: Store,
    post: Store,
    payload: Seq<u8>,
    r: Result<Vec<u8>, StoreError>,
) -> bool {
    match kv_spec(payload) {
        Some(kv) => {
            &&& post.default_entries() == insert_entry(pre.default_entries(), kv.0, kv.1)
            &&& post.event_entries() == pre.event_entries()
            &&& post.failure_entries() == pre.failure_entries()
            &&& thresholds_unchanged(pre, post)
            &&& match r {
                Ok(b) => b@ == kv.0,
                Err(_) => false,
            }
        },
        None => store_unchanged(pre, post) && match r {
            Ok(_) => false,
            Err(e) => e is MalformedPayload,
        },
    }
}

/// What a get reports: the stored value, or empty bytes for an absent key;
/// never an error.
pub open spec fn get_applied(s: Store, key: Seq<u8>, r: Result<Vec<u8>, StoreError>) -> bool {
    match r {
        Ok(b) => b@ == lookup_or_empty(s.default_entries(), key),
        Err(_) => false,
    }
}

/// What an event write does: a long-enough record is stamped with `now` and
/// stored under the decimal key of `now`, and the eight little-endian bytes
/// of `now` come back; a short record changes nothing and reports a decode
/// error.
pub open spec fn put_event_applied(
    pre: Store,
    post: Store,
    value: Seq<u8>,
    now: u64,
    r: Result<Vec<u8>, StoreError>,
) -> bool {
    if value.len() < 8 {
        store_unchanged(pre, post) && match r {
            Ok(_) => false,
            Err(e) => e is MalformedPayload,
        }
    } else {
        &&& post.event_entries() == insert_entry(
            pre.event_entries(),
            dec_digits(now as nat),
            stamp_record(value, now),
        )
        &&& post.default_entries() == pre.default_entries()
        &&& post.failure_entries() == pre.failure_entries()
        &&& thresholds_unchanged(pre, post)
        &&& match r {
            Ok(b) => b@ == u64_le(now),
            Err(_) => false,
        }
    }
}

/// What an event read reports: the count-prefixed envelope over the values of
/// the scan from the chosen seek key, or a decode error for a malformed or
/// overflowing cursor.
pub open spec fn get_events_applied(
    s: Store,
    payload: Seq<u8>,
    get_all: bool,
    now: u64,
    r: Result<Vec<u8>, StoreError>,
) -> bool {
    match events_seek_spec(payload, get_all, now, s.event_threshold()) {
        None => match r {
            Ok(_) => false,
            Err(e) => e is MalformedPayload,
        },
        Some(from) => match r {
            Ok(b) => b@ == envelope_spec(values_of(scan_entries(s.event_entries(), from))),
            Err(_) => false,
        },
    }
}

/// What a fetch-failure write does: as an event write, into the
/// fetch-failure namespace, with an empty success payload.
pub open spec fn put_fetch_failure_applied(
    pre: Store,
    post: Store,
    value: Seq<u8>,
    now: u64,
    r: Result<Vec<u8>, StoreError>,
) -> bool {
    if value.len() < 8 {
        store_unchanged(pre, post) && match r {
            Ok(_) => false,
            Err(e) => e is MalformedPayload,
        }
    } else {
        &&& post.failure_entries() == insert_entry(
            pre.failure_entries(),
            dec_digits(now as nat),
            stamp_record(value, now),
        )
        &&& post.default_entries() == pre.default_entries()
        &&& post.event_entries() == pre.event_entries()
        &&& thresholds_unchanged(pre, post)
        &&& match r {
            Ok(b) => b@ == Seq::<u8>::empty(),
            Err(_) => false,
        }
    }
}

/// What a fetch-failure read reports: the envelope over the threshold scan of
/// the fetch-failure namespace; never an error.
pub open spec fn get_fetch_failures_applied(s: Store, now: u64, r: Result<Vec<u8>, StoreError>) -> bool {
    match r {
        Ok(b) => b@ == envelope_spec(
            values_of(
                scan_entries(
                    s.failure_entries(),
                    dec_digits(cutoff_of(now, s.fetch_failure_threshold()) as nat),
                ),
            ),
        ),
        Err(_) => false,
    }
}

impl Store {
    /// Opens the store with its three namespaces and the two retention
    /// windows, in microseconds.
    pub fn new(event_threshold_micros: u64, fetch_failure_threshold_micros: u64) -> (r: Store)
        ensures
            r.wf(),
            r.default_entries() == Seq::<(Seq<u8>, Seq<u8>)>::empty(),
            r.event_entries() == Seq::<(Seq<u8>, Seq<u8>)>::empty(),
            r.failure_entries() == Seq::<(Seq<u8>, Seq<u8>)>::empty(),
            r.event_threshold() == event_threshold_micros,
            r.fetch_failure_threshold() == fetch_failure_threshold_micros,
    {
        Store {
            default_ns: Namespace::new(),
            events_ns: Namespace::new(),
            failures_ns: Namespace::new(),
            event_threshold_micros,
            fetch_failure_threshold_micros,
        }
    }

    /// Stores a caller-keyed value in the default namespace and returns the
    /// raw key bytes written.
    pub fn put(&mut self, payload: &Vec<u8>) -> (r: Result<Vec<u8>, StoreError>)
        requires
            old(self).wf(),
        ensures
            final(self).wf(),
            put_applied(*old(self), *final(self), payload@, r),
    {
        match decode_kv(payload) {
            None => Err(StoreError::MalformedPayload),
            Some(kv) => {
                let (key, value) = kv;
                let key_out = clone_bytes(&key);
                proof {
                    lemma_insert_entry(self.default_entries(), key@, value@);
                }
                self.default_ns.put(key, value);
                Ok(key_out)
            },
        }
    }

    /// Point lookup in the default namespace: the stored value, or empty
    /// bytes when the key was never written.
    pub fn get(&self, key: &Vec<u8>) -> (r: Result<Vec<u8>, StoreError>)
        ensures
            get_applied(*self, key@, r),
    {
        match self.default_ns.get(key) {
            Some(v) => Ok(v),
            None => Ok(Vec::new()),
        }
    }

    /// Stamps the record with `now_micros` and stores it in the events
    /// namespace under the decimal key of `now_micros`; returns the eight
    /// little-endian bytes of the assigned timestamp.
    pub fn put_event_at(&mut self, value: &Vec<u8>, now_micros: u64) -> (r: Result<
        Vec<u8>,
        StoreError,
    >)
        requires
            old(self).wf(),
        ensures
            final(self).wf(),
            put_event_applied(*old(self), *final(self), value@, now_micros, r),
    {
        if value.len() < 8 {
            return Err(StoreError::MalformedPayload);
        }
        let key = u64_to_dec(now_micros);
        let mut rec = encode_u64_le(now_micros);
        let tail = copy_range(value, 8, value.len());
        append_bytes(&mut rec, &tail);
        proof {
            assert(rec@ =~= stamp_record(value@, now_micros));
        }
        let ghost s0 = self.event_entries();
        proof {
            lemma_insert_entry(s0, key@, rec@);
        }
        self.events_ns.put(key, rec);
        proof {
            assert(stamp_record(value@, now_micros).subrange(0, 8) =~= u64_le(now_micros));
            lemma_stamped_after_insert(s0, dec_digits(now_micros as nat), stamp_record(value@, now_micros), now_micros);
        }
        Ok(encode_u64_le(now_micros))
    }

    /// Reads the clock, then stores the record as `put_event_at` does.
    pub fn put_event(&mut self, value: &Vec<u8>) -> (r: Result<Vec<u8>, StoreError>)
        requires
            old(self).wf(),
        ensures
            final(self).wf(),
            exists|now: u64| put_event_applied(*old(self), *final(self), value@, now, r),
    {
        let now = system_micros();
        let r = self.put_event_at(value, now);
        r
    }

    /// Scans the events namespace from the seek key chosen by the caller's
    /// intent: everything for a get-all, the retention cutoff without a
    /// cursor, and the cursor's successor otherwise, so that a record already
    /// seen at exactly the cursor key is not delivered again.
    pub fn get_events_at(&self, payload: &Vec<u8>, get_all: bool, now_micros: u64) -> (r: Result<
        Vec<u8>,
        StoreError,
    >)
        ensures
            get_events_applied(*self, payload@, get_all, now_micros, r),
    {
        let mut from: Vec<u8> = Vec::new();
        if get_all {
            proof {
                assert(from@ =~= Seq::<u8>::empty());
            }
        } else if payload.len() == 0 {
            let cutoff = if now_micros >= self.event_threshold_micros {
                now_micros - self.event_threshold_micros
            } else {
                0
            };
            from = u64_to_dec(cutoff);
        } else {
            match decode_field_at(payload, 0) {
                None => {
                    return Err(StoreError::MalformedPayload);
                },
                Some(f) => {
                    match parse_dec(&f.0) {
                        None => {
                            return Err(StoreError::MalformedPayload);
                        },
                        Some(c) => {
                            if c == u64::MAX {
                                return Err(StoreError::MalformedPayload);
                            }
                            from = u64_to_dec(c + 1);
                        },
                    }
                },
            }
        }
        let vals = self.events_ns.scan_values_from(&from);
        let env = build_envelope(&vals);
        proof {
            lemma_values_collected(vals, scan_entries(self.event_entries(), from@));
        }
        Ok(env)
    }

    /// Reads the clock, then scans as `get_events_at` does.
    pub fn get_events(&self, payload: &Vec<u8>, get_all: bool) -> (r: Result<Vec<u8>, StoreError>)
        ensures
            exists|now: u64| get_events_applied(*self, payload@, get_all, now, r),
    {
        let now = system_micros();
        let r = self.get_events_at(payload, get_all, now);
        r
    }

    /// Stamps the report with `now_micros` and stores it in the fetch-failure
    /// namespace; the success payload is empty.
    pub fn put_fetch_failure_at(&mut self, value: &Vec<u8>, now_micros: u64) -> (r: Result<
        Vec<u8>,
        StoreError,
    >)
        requires
            old(self).wf(),
        ensures
            final(self).wf(),
            put_fetch_failure_applied(*old(self), *final(self), value@, now_micros, r),
    {
        if value.len() < 8 {
            return Err(StoreError::MalformedPayload);
        }
        let key = u64_to_dec(now_micros);
        let mut rec = encode_u64_le(now_micros);
        let tail = copy_range(value, 8, value.len());
        append_bytes(&mut rec, &tail);
        proof {
            assert(rec@ =~= stamp_record(value@, now_micros));
        }
        let ghost s0 = self.failure_entries();
        proof {
            lemma_insert_entry(s0, key@, rec@);
        }
        self.failures_ns.put(key, rec);
        proof {
            assert(stamp_record(value@, now_micros).subrange(0, 8) =~= u64_le(now_micros));
            lemma_stamped_after_insert(s0, dec_digits(now_micros as nat), stamp_record(value@, now_micros), now_micros);
        }
        Ok(Vec::new())
    }

    /// Reads the clock, then stores the report as `put_fetch_failure_at`
    /// does.
    pub fn put_fetch_failure(&mut self, value: &Vec<u8>) -> (r: Result<Vec<u8>, StoreError>)
        requires
            old(self).wf(),
        ensures
            final(self).wf(),
            exists|now: u64| put_fetch_failure_applied(*old(self), *final(self), value@, now, r),
    {
        let now = system_micros();
        let r = self.put_fetch_failure_at(value, now);
        r
    }

    /// Threshold scan of the fetch-failure namespace from the retention
    /// cutoff.
    pub fn get_fetch_failures_at(&self, now_micros: u64) -> (r: Result<Vec<u8>, StoreError>)
        ensures
            get_fetch_failures_applied(*self, now_micros, r),
    {
        let cutoff = if now_micros >= self.fetch_failure_threshold_micros {
            now_micros - self.fetch_failure_threshold_micros
        } else {
            0
        };
        let from = u64_to_dec(cutoff);
        let vals = self.failures_ns.scan_values_from(&from);
        let env = build_envelope(&vals);
        proof {
            lemma_values_collected(vals, scan_entries(self.failure_entries(), from@));
        }
        Ok(env)
    }

    /// Reads the clock, then scans as `get_fetch_failures_at` does.
    pub fn get_fetch_failures(&self) -> (r: Result<Vec<u8>, StoreError>)
        ensures
            exists|now: u64| get_fetch_failures_applied(*self, now, r),
    {
        let now = system_micros();
        let r = self.get_fetch_failures_at(now);
        r
    }
}

/// A stamped namespace stays stamped when a record stamped with `t` is
/// stored under the decimal key of `t`.
proof fn lemma_stamped_after_insert(s: Seq<(Seq<u8>, Seq<u8>)>, k: Seq<u8>, v: Seq<u8>, t: u64)
    requires
        sorted_keys(s),
        stamped(s),
        v.len() >= 8,
        v.subrange(0, 8) == u64_le(t),
        k == dec_digits(t as nat),
    ensures
        stamped(insert_entry(s, k, v)),
{
    lemma_insert_entry(s, k, v);
    let ins = insert_entry(s, k, v);
    assert(stamped_entry((k, v))) by {
        lemma_u64_le_round_trip(t);
    }
    assert forall|i: int| 0 <= i < ins.len() implies stamped_entry(#[trigger] ins[i]) by {
        if ins[i] == (k, v) {
        } else {
            assert(s.contains(ins[i]));
            let w = choose|w: int| 0 <= w < s.len() && s[w] == ins[i];
            assert(stamped_entry(s[w]));
        }
    }
}

/// The collected scan values, seen as byte strings, are the values of the
/// scanned entries.
proof fn lemma_values_collected(vals: Vec<Vec<u8>>, sc: Seq<(Seq<u8>, Seq<u8>)>)
    requires
        vals@.len() == sc.len(),
        forall|i: int| 0 <= i < vals@.len() ==> #[trigger] vals@[i]@ == sc[i].1,
    ensures
        vals.deep_view() == values_of(sc),
{
    assert forall|i: int| 0 <= i < vals.deep_view().len() implies vals.deep_view()[i] == values_of(
        sc,
    )[i] by {
        assert(vals.deep_view()[i] =~= vals@[i]@);
    }
    assert(vals.deep_view() =~= values_of(sc));
}

/// Round trip: a put of `(k, v)` followed by a get of `k` returns exactly
/// `v`.
pub proof fn lemma_put_then_get(
    pre: Store,
    post: Store,
    payload: Seq<u8>,
    k: Seq<u8>,
    v: Seq<u8>,
    rput: Result<Vec<u8>, StoreError>,
    rget: Result<Vec<u8>, StoreError>,
)
    requires
        pre.wf(),
        kv_spec(payload) == Some((k, v)),
        put_applied(pre, post, payload, rput),
        get_applied(post, k, rget),
    ensures
        match rget {
            Ok(out) => out@ == v,
            Err(_) => false,
        },
{
    lemma_insert_entry(pre.default_entries(), k, v);
}

/// A get of a key never written returns an empty result, not an error.
pub proof fn lemma_get_unwritten(s: Store, k: Seq<u8>, rget: Result<Vec<u8>, StoreError>)
    requires
        forall|i: int| 0 <= i < s.default_entries().len() ==> (#[trigger] s.default_entries()[i]).0
            != k,
        get_applied(s, k, rget),
    ensures
        match rget {
            Ok(out) => out@ == Seq::<u8>::empty(),
            Err(_) => false,
        },
{
    lemma_lookup_none_iff(s.default_entries(), k);
}

/// Ordering: when the clock advances between two event writes, the returned
/// ingest timestamps strictly increase.
pub proof fn lemma_event_ts_ordering(
    pre: Store,
    mid: Store,
    post: Store,
    v1: Seq<u8>,
    v2: Seq<u8>,
    t1: u64,
    t2: u64,
    r1: Result<Vec<u8>, StoreError>,
    r2: Result<Vec<u8>, StoreError>,
)
    requires
        put_event_applied(pre, mid, v1, t1, r1),
        put_event_applied(mid, post, v2, t2, r2),
        r1 is Ok,
        r2 is Ok,
        t1 < t2,
    ensures
        match (r1, r2) {
            (Ok(b1), Ok(b2)) => u64_of_le8(b1@) < u64_of_le8(b2@),
            _ => false,
        },
{
    lemma_u64_le_round_trip(t1);
    lemma_u64_le_round_trip(t2);
}

/// Threshold scan: when every key in the namespace has the cutoff's digit
/// count, the scan from the cutoff key returns exactly the records stamped at
/// or after the cutoff, in ascending timestamp order.
pub proof fn lemma_threshold_scan(s: Seq<(Seq<u8>, Seq<u8>)>, cutoff: u64)
    requires
        sorted_keys(s),
        stamped(s),
        forall|i: int|
            0 <= i < s.len() ==> dec_digits(record_ts((#[trigger] s[i]).1) as nat).len()
                == dec_digits(cutoff as nat).len(),
    ensures
        forall|i: int|
            0 <= i < scan_entries(s, dec_digits(cutoff as nat)).len() ==> s.contains(
                #[trigger] scan_entries(s, dec_digits(cutoff as nat))[i],
            ) && record_ts(scan_entries(s, dec_digits(cutoff as nat))[i].1) >= cutoff,
        forall|j: int|
            0 <= j < s.len() && record_ts((#[trigger] s[j]).1) >= cutoff ==> scan_entries(
                s,
                dec_digits(cutoff as nat),
            ).contains(s[j]),
        forall|i: int, j: int|
            0 <= i < j < scan_entries(s, dec_digits(cutoff as nat)).len() ==> record_ts(
                #[trigger] scan_entries(s, dec_digits(cutoff as nat))[i].1,
            ) < record_ts(#[trigger] scan_entries(s, dec_digits(cutoff as nat))[j].1),
{
    let from = dec_digits(cutoff as nat);
    let sc = scan_entries(s, from);
    lemma_scan_entries_props(s, from);
    assert forall|i: int| 0 <= i < sc.len() implies s.contains(#[trigger] sc[i]) && record_ts(
        sc[i].1,
    ) >= cutoff by {
        let w = choose|w: int| 0 <= w < s.len() && s[w] == sc[i];
        assert(stamped_entry(s[w]));
        let ts = record_ts(sc[i].1);
        assert(sc[i].0 == dec_digits(ts as nat));
        assert(dec_digits(ts as nat).len() == dec_digits(cutoff as nat).len());
        lemma_dec_order_iff(cutoff as nat, ts as nat);
        assert(lex_le(from, sc[i].0));
    }
    assert forall|j: int|
        0 <= j < s.len() && record_ts((#[trigger] s[j]).1) >= cutoff implies sc.contains(s[j]) by {
        assert(stamped_entry(s[j]));
        let ts = record_ts(s[j].1);
        lemma_dec_order_iff(cutoff as nat, ts as nat);
        assert(lex_le(from, s[j].0));
    }
    assert forall|i: int, j: int| 0 <= i < j < sc.len() implies record_ts(
        #[trigger] sc[i].1,
    ) < record_ts(#[trigger] sc[j].1) by {
        let wi = choose|w: int| 0 <= w < s.len() && s[w] == sc[i];
        let wj = choose|w: int| 0 <= w < s.len() && s[w] == sc[j];
        assert(stamped_entry(s[wi]));
        assert(stamped_entry(s[wj]));
        let ti = record_ts(sc[i].1);
        let tj = record_ts(sc[j].1);
        assert(lex_lt(sc[i].0, sc[j].0));
        assert(dec_digits(ti as nat).len() == dec_digits(cutoff as nat).len());
        assert(dec_digits(tj as nat).len() == dec_digits(cutoff as nat).len());
        lemma_dec_order_iff(ti as nat, tj as nat);
    }
}

/// Resume scan: scanning from the successor of a cursor never returns a
/// record stamped at the cursor itself.
pub proof fn lemma_resume_scan_excludes(s: Seq<(Seq<u8>, Seq<u8>)>, c: u64)
    requires
        sorted_keys(s),
        stamped(s),
        c < u64::MAX,
        dec_digits(c as nat).len() == dec_digits((c + 1) as nat).len(),
    ensures
        forall|i: int|
            0 <= i < scan_entries(s, dec_digits((c + 1) as nat)).len() ==> record_ts(
                (#[trigger] scan_entries(s, dec_digits((c + 1) as nat))[i]).1,
            ) != c,
{
    let from = dec_digits((c + 1) as nat);
    let sc = scan_entries(s, from);
    lemma_scan_entries_props(s, from);
    assert forall|i: int| 0 <= i < sc.len() implies record_ts((#[trigger] sc[i]).1) != c by {
        let w = choose|w: int| 0 <= w < s.len() && s[w] == sc[i];
        assert(stamped_entry(s[w]));
        if record_ts(sc[i].1) == c {
            assert(sc[i].0 == dec_digits(c as nat));
            assert(lex_le(from, sc[i].0));
            lemma_dec_order_iff((c + 1) as nat, c as nat);
        }
    }
}

/// Get-all scan: the scan from the start of the namespace returns every
/// record ever written; with uniform key digit counts the records come in
/// ascending timestamp order.
pub proof fn lemma_get_all_scan(s: Seq<(Seq<u8>, Seq<u8>)>)
    requires
        sorted_keys(s),
        stamped(s),
        forall|i: int, j: int|
            0 <= i < s.len() && 0 <= j < s.len() ==> dec_digits(
                record_ts((#[trigger] s[i]).1) as nat,
            ).len() == dec_digits(record_ts((#[trigger] s[j]).1) as nat).len(),
    ensures
        scan_entries(s, Seq::empty()) == s,
        forall|i: int, j: int|
            0 <= i < j < s.len() ==> record_ts((#[trigger] s[i]).1) < record_ts(
                (#[trigger] s[j]).1,
            ),
{
    lemma_scan_from_start(s);
    assert forall|i: int, j: int| 0 <= i < j < s.len() implies record_ts(
        (#[trigger] s[i]).1,
    ) < record_ts((#[trigger] s[j]).1) by {
        assert(stamped_entry(s[i]));
        assert(stamped_entry(s[j]));
        assert(lex_lt(s[i].0, s[j].0));
        lemma_dec_order_iff(record_ts(s[i].1) as nat, record_ts(s[j].1) as nat);
    }
}

} // verus!
