//! An independent ordered key space: byte-string keys held in ascending
//! byte-lexicographic order, with point get/put and a forward scan from a
//! seek position, as the persistent engine contract requires.

use vstd::prelude::*;
use crate::bytes::clone_bytes;
use crate::timekey::{
    compare_bytes, lemma_lex_connex, lemma_lex_lt_asym, lemma_lex_lt_irrefl, lemma_lex_lt_trans,
    lex_le, lex_lt, KeyOrder,
};

verus! {

/// Entries hold strictly ascending keys.
pub open spec fn sorted_keys(s: Seq<(Seq<u8>, Seq<u8>)>) -> bool {
    forall|i: int, j: int| 0 <= i < j < s.len() ==> lex_lt(#[trigger] s[i].0, #[trigger] s[j].0)
}

/// The value stored under `k`, if any.
pub open spec fn lookup(s: Seq<(Seq<u8>, Seq<u8>)>, k: Seq<u8>) -> Option<Seq<u8>>
    decreases s.len(),
{
    if s.len() == 0 {
        None
    } else if s[0].0 == k {
        Some(s[0].1)
    } else {
        lookup(s.skip(1), k)
    }
}

/// The entries after an upsert of `(k, v)`, keeping ascending key order and
/// overwriting any entry already under `k`.
pub open spec fn insert_entry(s: Seq<(Seq<u8>, Seq<u8>)>, k: Seq<u8>, v: Seq<u8>) -> Seq<
    (Seq<u8>, Seq<u8>),
>
    decreases s.len(),
{
    if s.len() == 0 {
        seq![(k, v)]
    } else if lex_lt(k, s[0].0) {
        seq![(k, v)] + s
    } else if k == s[0].0 {
        seq![(k, v)] + s.skip(1)
    } else {
        seq![s[0]] + insert_entry(s.skip(1), k, v)
    }
}

/// The suffix of the entries starting at the first key at or past `from`.
pub open spec fn scan_entries(s: Seq<(Seq<u8>, Seq<u8>)>, from: Seq<u8>) -> Seq<(Seq<u8>, Seq<u8>)>
    decreases s.len(),
{
    if s.len() == 0 {
        Seq::empty()
    } else if lex_le(from, s[0].0) {
        s
    } else {
        scan_entries(s.skip(1), from)
    }
}

/// An upsert keeps the keys sorted, stores `v` under `k`, leaves every other
/// key's value unchanged, and adds no entry beyond `(k, v)` and the old ones.
pub proof fn lemma_insert_entry(s: Seq<(Seq<u8>, Seq<u8>)>, k: Seq<u8>, v: Seq<u8>)
    requires
        sorted_keys(s),
    ensures
        sorted_keys(insert_entry(s, k, v)),
        lookup(insert_entry(s, k, v), k) == Some(v),
        forall|k2: Seq<u8>| k2 != k ==> #[trigger] lookup(insert_entry(s, k, v), k2) == lookup(
            s,
            k2,
        ),
        forall|i: int|
            0 <= i < insert_entry(s, k, v).len() ==> #[trigger] insert_entry(s, k, v)[i] == (k, v)
                || s.contains(insert_entry(s, k, v)[i]),
    decreases s.len(),
{
    let ins = insert_entry(s, k, v);
    if s.len() == 0 {
        assert(ins == seq![(k, v)]);
        assert(ins.skip(1) =~= Seq::<(Seq<u8>, Seq<u8>)>::empty());
        assert forall|k2: Seq<u8>| k2 != k implies #[trigger] lookup(ins, k2) == lookup(s, k2) by {
            assert(lookup(ins, k2) == lookup(ins.skip(1), k2));
        }
    } else if lex_lt(k, s[0].0) {
        assert(ins == seq![(k, v)] + s);
        assert(sorted_keys(ins)) by {
            assert forall|i: int, j: int| 0 <= i < j < ins.len() implies lex_lt(
                ins[i].0,
                ins[j].0,
            ) by {
                if i == 0 {
                    if j == 1 {
                        assert(ins[j] == s[0]);
                    } else {
                        assert(ins[j] == s[j - 1]);
                        lemma_lex_lt_trans(k, s[0].0, s[j - 1].0);
                    }
                } else {
                    assert(ins[i] == s[i - 1]);
                    assert(ins[j] == s[j - 1]);
                }
            }
        }
        assert(ins[0] == (k, v));
        assert(lookup(ins, k) == Some(v));
        assert forall|k2: Seq<u8>| k2 != k implies #[trigger] lookup(ins, k2) == lookup(s, k2) by {
            assert(ins.skip(1) =~= s);
        }
        assert forall|i: int| 0 <= i < ins.len() implies ins[i] == (k, v) || s.contains(
            ins[i],
        ) by {
            if i > 0 {
                assert(ins[i] == s[i - 1]);
            }
        }
    } else if k == s[0].0 {
        assert(ins == seq![(k, v)] + s.skip(1));
        assert(sorted_keys(ins)) by {
            assert forall|i: int, j: int| 0 <= i < j < ins.len() implies lex_lt(
                ins[i].0,
                ins[j].0,
            ) by {
                if i == 0 {
                    assert(ins[j] == s.skip(1)[j - 1]);
                    assert(s.skip(1)[j - 1] == s[j]);
                } else {
                    assert(ins[i] == s[i]);
                    assert(ins[j] == s[j]);
                }
            }
        }
        assert(ins[0] == (k, v));
        assert(lookup(ins, k) == Some(v));
        assert forall|k2: Seq<u8>| k2 != k implies #[trigger] lookup(ins, k2) == lookup(s, k2) by {
            assert(ins.skip(1) =~= s.skip(1));
        }
        assert forall|i: int| 0 <= i < ins.len() implies ins[i] == (k, v) || s.contains(
            ins[i],
        ) by {
            if i > 0 {
                assert(ins[i] == s[i]);
            }
        }
    } else {
        lemma_lex_connex(k, s[0].0);
        assert(lex_lt(s[0].0, k));
        assert(sorted_keys(s.skip(1))) by {
            assert forall|i: int, j: int| 0 <= i < j < s.skip(1).len() implies lex_lt(
                s.skip(1)[i].0,
                s.skip(1)[j].0,
            ) by {
                assert(s.skip(1)[i] == s[i + 1]);
                assert(s.skip(1)[j] == s[j + 1]);
            }
        }
        lemma_insert_entry(s.skip(1), k, v);
        let tail = insert_entry(s.skip(1), k, v);
        assert(ins == seq![s[0]] + tail);
        assert(sorted_keys(ins)) by {
            assert forall|i: int, j: int| 0 <= i < j < ins.len() implies lex_lt(
                ins[i].0,
                ins[j].0,
            ) by {
                if i == 0 {
                    assert(ins[j] == tail[j - 1]);
                    if tail[j - 1] == (k, v) {
                        assert(lex_lt(s[0].0, k));
                    } else {
                        assert(s.skip(1).contains(tail[j - 1]));
                        let w = choose|w: int|
                            0 <= w < s.skip(1).len() && s.skip(1)[w] == tail[j - 1];
                        assert(s.skip(1)[w] == s[w + 1]);
                        assert(lex_lt(s[0].0, s[w + 1].0));
                    }
                } else {
                    assert(ins[i] == tail[i - 1]);
                    assert(ins[j] == tail[j - 1]);
                }
            }
        }
        assert(ins[0] == s[0]);
        assert(s[0].0 != k) by {
            if s[0].0 == k {
                lemma_lex_lt_irrefl(k);
            }
        }
        assert(ins.skip(1) =~= tail);
        assert(lookup(ins, k) == lookup(tail, k));
        assert forall|k2: Seq<u8>| k2 != k implies #[trigger] lookup(ins, k2) == lookup(s, k2) by {
            if k2 == s[0].0 {
                assert(lookup(ins, k2) == Some(s[0].1));
                assert(lookup(s, k2) == Some(s[0].1));
            } else {
                assert(lookup(ins, k2) == lookup(tail, k2));
                assert(lookup(tail, k2) == lookup(s.skip(1), k2));
                assert(lookup(s, k2) == lookup(s.skip(1), k2));
            }
        }
        assert forall|i: int| 0 <= i < ins.len() implies ins[i] == (k, v) || s.contains(
            ins[i],
        ) by {
            if i == 0 {
                assert(s.contains(s[0]));
            } else {
                assert(ins[i] == tail[i - 1]);
                if tail[i - 1] != (k, v) {
                    assert(s.skip(1).contains(tail[i - 1]));
                    let w = choose|w: int| 0 <= w < s.skip(1).len() && s.skip(1)[w] == tail[i - 1];
                    assert(s.skip(1)[w] == s[w + 1]);
                    assert(s.contains(s[w + 1]));
                }
            }
        }
    }
}

/// Where the first key at or past `k` sits at position `p`, the upsert is an
/// insertion (or an overwrite) exactly there.
pub proof fn lemma_insert_entry_at(s: Seq<(Seq<u8>, Seq<u8>)>, k: Seq<u8>, v: Seq<u8>, p: int)
    requires
        0 <= p <= s.len(),
        forall|j: int| 0 <= j < p ==> lex_lt(#[trigger] s[j].0, k),
        p < s.len() ==> !lex_lt(s[p].0, k),
    ensures
        p < s.len() && s[p].0 == k ==> insert_entry(s, k, v) == s.subrange(0, p) + seq![(k, v)]
            + s.subrange(p + 1, s.len() as int),
        !(p < s.len() && s[p].0 == k) ==> insert_entry(s, k, v) == s.subrange(0, p) + seq![(k, v)]
            + s.subrange(p, s.len() as int),
    decreases p,
{
    if p == 0 {
        if s.len() == 0 {
            assert(insert_entry(s, k, v) == seq![(k, v)]);
            assert(insert_entry(s, k, v) =~= s.subrange(0, 0) + seq![(k, v)] + s.subrange(
                0,
                s.len() as int,
            ));
        } else if s[0].0 == k {
            assert(!lex_lt(k, s[0].0)) by {
                lemma_lex_lt_irrefl(k);
            }
            assert(insert_entry(s, k, v) == seq![(k, v)] + s.skip(1));
            assert(insert_entry(s, k, v) =~= s.subrange(0, 0) + seq![(k, v)] + s.subrange(
                1,
                s.len() as int,
            ));
        } else {
            lemma_lex_connex(k, s[0].0);
            assert(lex_lt(k, s[0].0));
            assert(insert_entry(s, k, v) == seq![(k, v)] + s);
            assert(insert_entry(s, k, v) =~= s.subrange(0, 0) + seq![(k, v)] + s.subrange(
                0,
                s.len() as int,
            ));
        }
    } else {
        assert(lex_lt(s[0].0, k));
        assert(!lex_lt(k, s[0].0)) by {
            lemma_lex_lt_asym(s[0].0, k);
        }
        assert(s[0].0 != k) by {
            if s[0].0 == k {
                lemma_lex_lt_irrefl(k);
            }
        }
        assert(insert_entry(s, k, v) == seq![s[0]] + insert_entry(s.skip(1), k, v));
        assert forall|j: int| 0 <= j < p - 1 implies lex_lt(#[trigger] s.skip(1)[j].0, k) by {
            assert(s.skip(1)[j] == s[j + 1]);
        }
        if p - 1 < s.skip(1).len() {
            assert(s.skip(1)[p - 1] == s[p]);
        }
        lemma_insert_entry_at(s.skip(1), k, v, p - 1);
        if p < s.len() && s[p].0 == k {
            assert(insert_entry(s, k, v) =~= s.subrange(0, p) + seq![(k, v)] + s.subrange(
                p + 1,
                s.len() as int,
            )) by {
                assert(s.skip(1).subrange(0, p - 1) =~= s.subrange(1, p));
                assert(s.skip(1).subrange(p, s.skip(1).len() as int) =~= s.subrange(
                    p + 1,
                    s.len() as int,
                ));
            }
        } else {
            assert(insert_entry(s, k, v) =~= s.subrange(0, p) + seq![(k, v)] + s.subrange(
                p,
                s.len() as int,
            )) by {
                assert(s.skip(1).subrange(0, p - 1) =~= s.subrange(1, p));
                assert(s.skip(1).subrange(p - 1, s.skip(1).len() as int) =~= s.subrange(
                    p,
                    s.len() as int,
                ));
            }
        }
    }
}

/// Where the first key at or past `from` sits at position `p`, the scan is
/// exactly the suffix from `p`.
pub proof fn lemma_scan_entries_at(s: Seq<(Seq<u8>, Seq<u8>)>, from: Seq<u8>, p: int)
    requires
        0 <= p <= s.len(),
        forall|j: int| 0 <= j < p ==> lex_lt(#[trigger] s[j].0, from),
        p < s.len() ==> !lex_lt(s[p].0, from),
    ensures
        scan_entries(s, from) == s.skip(p),
    decreases p,
{
    if p == 0 {
        if s.len() == 0 {
            assert(scan_entries(s, from) =~= s.skip(0));
        } else {
            lemma_lex_connex(from, s[0].0);
            assert(lex_le(from, s[0].0));
            assert(scan_entries(s, from) =~= s.skip(0));
        }
    } else {
        assert(lex_lt(s[0].0, from));
        assert(!lex_le(from, s[0].0)) by {
            lemma_lex_lt_asym(s[0].0, from);
            if from == s[0].0 {
                lemma_lex_lt_irrefl(from);
            }
        }
        assert forall|j: int| 0 <= j < p - 1 implies lex_lt(#[trigger] s.skip(1)[j].0, from) by {
            assert(s.skip(1)[j] == s[j + 1]);
        }
        if p - 1 < s.skip(1).len() {
            assert(s.skip(1)[p - 1] == s[p]);
        }
        lemma_scan_entries_at(s.skip(1), from, p - 1);
        assert(s.skip(1).skip(p - 1) =~= s.skip(p));
    }
}

/// A scan yields stored entries at or past the seek key, in ascending key
/// order, and misses none of them.
pub proof fn lemma_scan_entries_props(s: Seq<(Seq<u8>, Seq<u8>)>, from: Seq<u8>)
    requires
        sorted_keys(s),
    ensures
        sorted_keys(scan_entries(s, from)),
        forall|i: int|
            0 <= i < scan_entries(s, from).len() ==> s.contains(#[trigger] scan_entries(s, from)[i])
                && lex_le(from, scan_entries(s, from)[i].0),
        forall|j: int|
            0 <= j < s.len() && lex_le(from, #[trigger] s[j].0) ==> scan_entries(s, from).contains(
                s[j],
            ),
    decreases s.len(),
{
    let sc = scan_entries(s, from);
    if s.len() == 0 {
    } else if lex_le(from, s[0].0) {
        assert(sc == s);
        assert forall|i: int| 0 <= i < sc.len() implies s.contains(#[trigger] sc[i]) && lex_le(
            from,
            sc[i].0,
        ) by {
            assert(s.contains(s[i]));
            if i > 0 {
                assert(lex_lt(s[0].0, s[i].0));
                if from == s[0].0 {
                    assert(lex_lt(from, s[i].0));
                } else {
                    lemma_lex_lt_trans(from, s[0].0, s[i].0);
                }
            }
        }
        assert forall|j: int|
            0 <= j < s.len() && lex_le(from, #[trigger] s[j].0) implies sc.contains(s[j]) by {
            assert(sc[j] == s[j]);
        }
    } else {
        assert(sorted_keys(s.skip(1))) by {
            assert forall|i: int, j: int| 0 <= i < j < s.skip(1).len() implies lex_lt(
                s.skip(1)[i].0,
                s.skip(1)[j].0,
            ) by {
                assert(s.skip(1)[i] == s[i + 1]);
                assert(s.skip(1)[j] == s[j + 1]);
            }
        }
        lemma_scan_entries_props(s.skip(1), from);
        assert(sc == scan_entries(s.skip(1), from));
        assert forall|i: int| 0 <= i < sc.len() implies s.contains(#[trigger] sc[i]) && lex_le(
            from,
            sc[i].0,
        ) by {
            assert(s.skip(1).contains(sc[i]));
            let w = choose|w: int| 0 <= w < s.skip(1).len() && s.skip(1)[w] == sc[i];
            assert(s.skip(1)[w] == s[w + 1]);
            assert(s.contains(s[w + 1]));
        }
        assert forall|j: int|
            0 <= j < s.len() && lex_le(from, #[trigger] s[j].0) implies sc.contains(s[j]) by {
            if j == 0 {
                assert(false);
            } else {
                assert(s[j] == s.skip(1)[j - 1]);
            }
        }
    }
}

/// A scan from the start of the namespace yields every entry.
pub proof fn lemma_scan_from_start(s: Seq<(Seq<u8>, Seq<u8>)>)
    ensures
        scan_entries(s, Seq::empty()) == s,
{
    if s.len() == 0 {
        assert(scan_entries(s, Seq::empty()) =~= s);
    } else {
        if s[0].0.len() == 0 {
            assert(Seq::<u8>::empty() =~= s[0].0);
        }
        assert(lex_le(Seq::empty(), s[0].0));
    }
}

/// A key is absent exactly when no entry holds it.
pub proof fn lemma_lookup_none_iff(s: Seq<(Seq<u8>, Seq<u8>)>, k: Seq<u8>)
    ensures
        lookup(s, k) is None <==> (forall|i: int| 0 <= i < s.len() ==> (#[trigger] s[i]).0 != k),
    decreases s.len(),
{
    if s.len() > 0 {
        lemma_lookup_none_iff(s.skip(1), k);
        if s[0].0 == k {
        } else {
            assert forall|i: int| 0 <= i < s.skip(1).len() implies s.skip(1)[i] == s[i + 1] by {}
            if lookup(s.skip(1), k) is None {
                assert forall|i: int| 0 <= i < s.len() implies (#[trigger] s[i]).0 != k by {
                    if i > 0 {
                        assert(s[i] == s.skip(1)[i - 1]);
                    }
                }
            } else {
                let w = choose|w: int| 0 <= w < s.skip(1).len() && (#[trigger] s.skip(1)[w]).0 == k;
                assert(s[w + 1].0 == k);
            }
        }
    }
}

/// An independent ordered key space.
pub struct Namespace {
    entries: Vec<(Vec<u8>, Vec<u8>)>,
}

impl View for Namespace {
    type V = Seq<(Seq<u8>, Seq<u8>)>;

    closed spec fn view(&self) -> Seq<(Seq<u8>, Seq<u8>)> {
        self.entries@.map_values(|e: (Vec<u8>, Vec<u8>)| (e.0@, e.1@))
    }
}

/// Position of the first key at or past `key`.
fn find_at_least(entries: &Vec<(Vec<u8>, Vec<u8>)>, key: &Vec<u8>) -> (p: usize)
    ensures
        p <= entries@.len(),
        forall|j: int| 0 <= j < p ==> lex_lt((#[trigger] entries@[j]).0@, key@),
        p < entries@.len() ==> !lex_lt(entries@[p as int].0@, key@),
{
    let mut p: usize = 0;
    while p < entries.len()
        invariant
            p <= entries@.len(),
            forall|j: int| 0 <= j < p ==> lex_lt((#[trigger] entries@[j]).0@, key@),
        decreases entries@.len() - p,
    {
        match compare_bytes(&entries[p].0, key) {
            KeyOrder::Less => {
                p = p + 1;
            },
            _ => {
                proof {
                    lemma_lex_lt_irrefl(key@);
                }
                return p;
            },
        }
    }
    p
}

impl Namespace {
    /// The namespace invariant: keys strictly ascending.
    pub open spec fn wf(self) -> bool {
        sorted_keys(self@)
    }

    /// Opens a fresh, empty namespace.
    pub fn new() -> (r: Namespace)
        ensures
            r@ == Seq::<(Seq<u8>, Seq<u8>)>::empty(),
            r.wf(),
    {
        let r = Namespace { entries: Vec::new() };
        proof {
            assert(r@ =~= Seq::<(Seq<u8>, Seq<u8>)>::empty());
        }
        r
    }

    /// Durable upsert: overwrites any existing value for the key.
    pub fn put(&mut self, key: Vec<u8>, value: Vec<u8>)
        requires
            old(self).wf(),
        ensures
            final(self).wf(),
            final(self)@ == insert_entry(old(self)@, key@, value@),
    {
        let ghost s0 = self@;
        let ghost kk = key@;
        let ghost vv = value@;
        let p = find_at_least(&self.entries, &key);
        proof {
            assert forall|j: int| 0 <= j < p implies lex_lt((#[trigger] s0[j]).0, kk) by {
                assert(s0[j] == (self.entries@[j].0@, self.entries@[j].1@));
            }
            lemma_insert_entry_at(s0, kk, vv, p as int);
            lemma_insert_entry(s0, kk, vv);
        }
        if p < self.entries.len() {
            let same = match compare_bytes(&self.entries[p].0, &key) {
                KeyOrder::Equal => true,
                _ => false,
            };
            if same {
                self.entries.remove(p);
                self.entries.insert(p, (key, value));
                proof {
                    assert(self@ =~= s0.subrange(0, p as int) + seq![(kk, vv)] + s0.subrange(
                        p as int + 1,
                        s0.len() as int,
                    ));
                }
                return ;
            }
        }
        self.entries.insert(p, (key, value));
        proof {
            assert(self@ =~= s0.subrange(0, p as int) + seq![(kk, vv)] + s0.subrange(
                p as int,
                s0.len() as int,
            ));
        }
    }

    /// Point lookup: a copy of the stored value, if the key is present.
    pub fn get(&self, key: &Vec<u8>) -> (r: Option<Vec<u8>>)
        ensures
            match r {
                Some(v) => lookup(self@, key@) == Some(v@),
                None => lookup(self@, key@) is None,
            },
    {
        proof {
            assert(self@.skip(0) =~= self@);
        }
        let mut i: usize = 0;
        while i < self.entries.len()
            invariant
                i <= self.entries@.len(),
                lookup(self@, key@) == lookup(self@.skip(i as int), key@),
            decreases self.entries@.len() - i,
        {
            proof {
                assert(self@.skip(i as int)[0] == self@[i as int]);
            }
            match compare_bytes(&self.entries[i].0, key) {
                KeyOrder::Equal => {
                    let v = clone_bytes(&self.entries[i].1);
                    proof {
                        assert(self@[i as int].0 == key@);
                        assert(lookup(self@.skip(i as int), key@) == Some(self@[i as int].1));
                    }
                    return Some(v);
                },
                _ => {
                    proof {
                        assert(self@[i as int].0 != key@);
                        assert(self@.skip(i as int).skip(1) =~= self@.skip(i as int + 1));
                    }
                    i = i + 1;
                },
            }
        }
        proof {
            assert(self@.skip(self.entries@.len() as int) =~= Seq::<(Seq<u8>, Seq<u8>)>::empty());
        }
        None
    }

    /// Forward scan: copies of the stored values at every key at or past
    /// `from`, in ascending key order.
    pub fn scan_values_from(&self, from: &Vec<u8>) -> (r: Vec<Vec<u8>>)
        ensures
            r@.len() == scan_entries(self@, from@).len(),
            forall|i: int|
                0 <= i < r@.len() ==> #[trigger] r@[i]@ == scan_entries(self@, from@)[i].1,
    {
        let p = find_at_least(&self.entries, from);
        proof {
            assert forall|j: int| 0 <= j < p implies lex_lt((#[trigger] self@[j]).0, from@) by {
                assert(self@[j] == (self.entries@[j].0@, self.entries@[j].1@));
            }
            lemma_scan_entries_at(self@, from@, p as int);
        }
        let mut r: Vec<Vec<u8>> = Vec::new();
        let mut i: usize = p;
        while i < self.entries.len()
            invariant
                p <= i <= self.entries@.len(),
                scan_entries(self@, from@) == self@.skip(p as int),
                self@.len() == self.entries@.len(),
                r@.len() == i - p,
                forall|j: int| 0 <= j < r@.len() ==> #[trigger] r@[j]@ == self@[j + p].1,
            decreases self.entries@.len() - i,
        {
            let v = clone_bytes(&self.entries[i].1);
            r.push(v);
            i = i + 1;
        }
        proof {
            assert forall|i2: int| 0 <= i2 < r@.len() implies #[trigger] r@[i2]@ == scan_entries(
                self@,
                from@,
            )[i2].1 by {
                assert(self@.skip(p as int)[i2] == self@[i2 + p]);
            }
        }
        r
    }
}

} // verus!
