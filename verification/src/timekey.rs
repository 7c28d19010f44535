//! The time-key scheme: a 64-bit microsecond timestamp is persisted as the
//! byte encoding of its decimal string.  For two timestamps whose decimal
//! strings have the same number of digits, byte-lexicographic order of the
//! keys equals numeric order of the timestamps; the proofs of that invariant
//! live here, together with the byte-lexicographic order itself.

use vstd::arithmetic::div_mod::{
    lemma_div_is_ordered, lemma_div_decreases, lemma_fundamental_div_mod,
};
use vstd::prelude::*;

verus! {

/// Strict byte-lexicographic order: a proper prefix sorts first.
pub open spec fn lex_lt(a: Seq<u8>, b: Seq<u8>) -> bool
    decreases a.len(),
{
    if b.len() == 0 {
        false
    } else if a.len() == 0 {
        true
    } else if a[0] < b[0] {
        true
    } else if b[0] < a[0] {
        false
    } else {
        lex_lt(a.skip(1), b.skip(1))
    }
}

/// Byte-lexicographic order, non-strict.
pub open spec fn lex_le(a: Seq<u8>, b: Seq<u8>) -> bool {
    lex_lt(a, b) || a == b
}

pub proof fn lemma_lex_lt_irrefl(a: Seq<u8>)
    ensures
        !lex_lt(a, a),
    decreases a.len(),
{
    if a.len() > 0 {
        lemma_lex_lt_irrefl(a.skip(1));
    }
}

pub proof fn lemma_lex_lt_asym(a: Seq<u8>, b: Seq<u8>)
    requires
        lex_lt(a, b),
    ensures
        !lex_lt(b, a),
    decreases a.len(),
{
    if a.len() > 0 && b.len() > 0 && a[0] == b[0] {
        lemma_lex_lt_asym(a.skip(1), b.skip(1));
    }
}

pub proof fn lemma_lex_lt_trans(a: Seq<u8>, b: Seq<u8>, c: Seq<u8>)
    requires
        lex_lt(a, b),
        lex_lt(b, c),
    ensures
        lex_lt(a, c),
    decreases a.len(),
{
    if a.len() > 0 && b.len() > 0 && c.len() > 0 && a[0] == b[0] && b[0] == c[0] {
        lemma_lex_lt_trans(a.skip(1), b.skip(1), c.skip(1));
    }
}

/// Any two byte strings are ordered or equal.
pub proof fn lemma_lex_connex(a: Seq<u8>, b: Seq<u8>)
    ensures
        lex_lt(a, b) || lex_lt(b, a) || a == b,
    decreases a.len(),
{
    if a.len() == 0 && b.len() == 0 {
        assert(a =~= b);
    } else if a.len() > 0 && b.len() > 0 && a[0] == b[0] {
        lemma_lex_connex(a.skip(1), b.skip(1));
        if a.skip(1) == b.skip(1) {
            assert(a.len() == b.len());
            assert forall|i: int| 0 <= i < a.len() implies a[i] == b[i] by {
                if i > 0 {
                    assert(a[i] == a.skip(1)[i - 1]);
                    assert(b[i] == b.skip(1)[i - 1]);
                }
            }
            assert(a =~= b);
        }
    }
}

/// Equal up to position `i` and smaller there: lexicographically smaller.
pub proof fn lemma_lex_lt_from_diff(a: Seq<u8>, b: Seq<u8>, i: int)
    requires
        0 <= i < a.len(),
        i < b.len(),
        a.subrange(0, i) == b.subrange(0, i),
        a[i] < b[i],
    ensures
        lex_lt(a, b),
    decreases i,
{
    if i == 0 {
    } else {
        assert(a.subrange(0, i)[0] == a[0]);
        assert(b.subrange(0, i)[0] == b[0]);
        assert(a.skip(1).subrange(0, i - 1) =~= a.subrange(0, i).subrange(1, i));
        assert(b.skip(1).subrange(0, i - 1) =~= b.subrange(0, i).subrange(1, i));
        assert(a.skip(1).subrange(0, i - 1) == b.skip(1).subrange(0, i - 1));
        assert(a.skip(1)[i - 1] == a[i]);
        lemma_lex_lt_from_diff(a.skip(1), b.skip(1), i - 1);
    }
}

/// A proper prefix is lexicographically smaller.
pub proof fn lemma_lex_lt_prefix(a: Seq<u8>, b: Seq<u8>)
    requires
        a.len() < b.len(),
        a == b.subrange(0, a.len() as int),
    ensures
        lex_lt(a, b),
    decreases a.len(),
{
    if a.len() > 0 {
        assert(a[0] == b.subrange(0, a.len() as int)[0]);
        assert(a.skip(1) =~= b.skip(1).subrange(0, a.len() - 1)) by {
            assert forall|j: int| 0 <= j < a.len() - 1 implies a.skip(1)[j] == b.skip(1).subrange(
                0,
                a.len() - 1,
            )[j] by {
                assert(a.skip(1)[j] == a[j + 1]);
                assert(a[j + 1] == b.subrange(0, a.len() as int)[j + 1]);
            }
        }
        lemma_lex_lt_prefix(a.skip(1), b.skip(1));
    }
}

/// The three-way result of a byte-string comparison.
pub enum KeyOrder {
    Less,
    Equal,
    Greater,
}

/// Compares two byte strings in lexicographic order.
pub fn compare_bytes(a: &Vec<u8>, b: &Vec<u8>) -> (r: KeyOrder)
    ensures
        r is Less <==> lex_lt(a@, b@),
        r is Greater <==> lex_lt(b@, a@),
        r is Equal <==> a@ == b@,
{
    let alen = a.len();
    let blen = b.len();
    let mut i: usize = 0;
    while i < alen && i < blen
        invariant
            i <= a@.len(),
            i <= b@.len(),
            alen == a@.len(),
            blen == b@.len(),
            a@.subrange(0, i as int) == b@.subrange(0, i as int),
        decreases a@.len() - i,
    {
        if a[i] < b[i] {
            proof {
                lemma_lex_lt_from_diff(a@, b@, i as int);
                lemma_lex_lt_asym(a@, b@);
                assert(a@[i as int] != b@[i as int]);
            }
            return KeyOrder::Less;
        }
        if b[i] < a[i] {
            proof {
                lemma_lex_lt_from_diff(b@, a@, i as int);
                lemma_lex_lt_asym(b@, a@);
                assert(a@[i as int] != b@[i as int]);
            }
            return KeyOrder::Greater;
        }
        proof {
            assert(a@.subrange(0, i as int + 1) =~= b@.subrange(0, i as int + 1));
        }
        i = i + 1;
    }
    if alen < blen {
        proof {
            assert(a@ =~= b@.subrange(0, a@.len() as int));
            lemma_lex_lt_prefix(a@, b@);
            lemma_lex_lt_asym(a@, b@);
        }
        return KeyOrder::Less;
    }
    if blen < alen {
        proof {
            assert(b@ =~= a@.subrange(0, b@.len() as int));
            lemma_lex_lt_prefix(b@, a@);
            lemma_lex_lt_asym(b@, a@);
        }
        return KeyOrder::Greater;
    }
    proof {
        assert(i as int == a@.len() && i as int == b@.len());
        assert forall|j: int| 0 <= j < a@.len() implies a@[j] == b@[j] by {
            assert(a@.subrange(0, i as int)[j] == a@[j]);
            assert(b@.subrange(0, i as int)[j] == b@[j]);
        }
        assert(a@ =~= b@);
        lemma_lex_lt_irrefl(a@);
    }
    KeyOrder::Equal
}

/// The ASCII decimal digits of a number, most significant first.
pub open spec fn dec_digits(n: nat) -> Seq<u8>
    decreases n,
{
    if n < 10 {
        seq![(48 + n) as u8]
    } else {
        dec_digits(n / 10).push((48 + n % 10) as u8)
    }
}

pub open spec fn is_dec_digit(b: u8) -> bool {
    48 <= b <= 57
}

pub open spec fn all_dec_digits(s: Seq<u8>) -> bool {
    forall|i: int| 0 <= i < s.len() ==> is_dec_digit(#[trigger] s[i])
}

/// The numeric value of a string of ASCII decimal digits.
pub open spec fn dec_val(s: Seq<u8>) -> int
    decreases s.len(),
{
    if s.len() == 0 {
        0
    } else {
        dec_val(s.drop_last()) * 10 + (s.last() - 48)
    }
}

/// A decimal encoding is non-empty, all digits, and reads back as the number
/// it encodes; it is one digit long exactly for numbers below ten.
pub proof fn lemma_dec_digits_props(n: nat)
    ensures
        dec_digits(n).len() >= 1,
        all_dec_digits(dec_digits(n)),
        dec_val(dec_digits(n)) == n,
        n < 10 <==> dec_digits(n).len() == 1,
    decreases n,
{
    if n < 10 {
        let s = dec_digits(n);
        assert(s.drop_last() =~= Seq::<u8>::empty());
        assert(s.last() == (48 + n) as u8);
        assert((48 + n) as u8 == 48 + n);
        assert(dec_val(Seq::<u8>::empty()) == 0);
        assert(dec_val(s) == dec_val(s.drop_last()) * 10 + (s.last() - 48));
    } else {
        lemma_dec_digits_props(n / 10);
        let t = dec_digits(n / 10);
        let d = (48 + n % 10) as u8;
        let s = dec_digits(n);
        assert(s == t.push(d));
        assert(n % 10 < 10);
        assert(d == 48 + n % 10);
        assert(all_dec_digits(s)) by {
            assert forall|i: int| 0 <= i < s.len() implies is_dec_digit(s[i]) by {
                if i < t.len() {
                    assert(s[i] == t[i]);
                } else {
                    assert(s[i] == d);
                }
            }
        }
        assert(s.drop_last() =~= t);
        assert(s.last() == d);
        lemma_fundamental_div_mod(n as int, 10);
    }
}

/// Two numbers with the same decimal encoding are equal.
pub proof fn lemma_dec_digits_injective(a: nat, b: nat)
    requires
        dec_digits(a) == dec_digits(b),
    ensures
        a == b,
{
    lemma_dec_digits_props(a);
    lemma_dec_digits_props(b);
}

pub proof fn lemma_lex_lt_push(x: Seq<u8>, y: Seq<u8>, c: u8, d: u8)
    requires
        lex_lt(x, y),
        x.len() == y.len(),
    ensures
        lex_lt(x.push(c), y.push(d)),
    decreases x.len(),
{
    if x.len() == 0 {
        assert(false);
    } else {
        let xp = x.push(c);
        let yp = y.push(d);
        assert(xp[0] == x[0]);
        assert(yp[0] == y[0]);
        if x[0] == y[0] {
            lemma_lex_lt_push(x.skip(1), y.skip(1), c, d);
            assert(xp.skip(1) =~= x.skip(1).push(c));
            assert(yp.skip(1) =~= y.skip(1).push(d));
        }
    }
}

pub proof fn lemma_lex_lt_push_last(x: Seq<u8>, c: u8, d: u8)
    requires
        c < d,
    ensures
        lex_lt(x.push(c), x.push(d)),
    decreases x.len(),
{
    let xp = x.push(c);
    let yp = x.push(d);
    if x.len() == 0 {
        assert(xp[0] == c);
        assert(yp[0] == d);
    } else {
        assert(xp[0] == x[0]);
        assert(yp[0] == x[0]);
        lemma_lex_lt_push_last(x.skip(1), c, d);
        assert(xp.skip(1) =~= x.skip(1).push(c));
        assert(yp.skip(1) =~= x.skip(1).push(d));
    }
}

/// For decimal strings of the same digit count, numeric order implies
/// byte-lexicographic order of the keys.
pub proof fn lemma_dec_order(a: nat, b: nat)
    requires
        a < b,
        dec_digits(a).len() == dec_digits(b).len(),
    ensures
        lex_lt(dec_digits(a), dec_digits(b)),
    decreases b,
{
    lemma_dec_digits_props(a);
    lemma_dec_digits_props(b);
    if b < 10 {
        let la = dec_digits(a);
        let lb = dec_digits(b);
        assert(la[0] == (48 + a) as u8);
        assert(lb[0] == (48 + b) as u8);
        assert(la[0] < lb[0]);
    } else {
        assert(a >= 10);
        let qa = a / 10;
        let qb = b / 10;
        let da = (48 + a % 10) as u8;
        let db = (48 + b % 10) as u8;
        lemma_dec_digits_props(qa);
        lemma_dec_digits_props(qb);
        assert(dec_digits(a) == dec_digits(qa).push(da));
        assert(dec_digits(b) == dec_digits(qb).push(db));
        assert(dec_digits(qa).len() == dec_digits(qb).len());
        lemma_div_is_ordered(a as int, b as int, 10);
        if qa == qb {
            lemma_fundamental_div_mod(a as int, 10);
            lemma_fundamental_div_mod(b as int, 10);
            assert(a % 10 < b % 10);
            assert(da < db);
            lemma_lex_lt_push_last(dec_digits(qa), da, db);
        } else {
            assert(qa < qb);
            lemma_div_decreases(b as int, 10);
            lemma_dec_order(qa, qb);
            lemma_lex_lt_push(dec_digits(qa), dec_digits(qb), da, db);
        }
    }
}

/// For decimal strings of the same digit count, byte-lexicographic order of
/// the keys is exactly numeric order of the timestamps.
pub proof fn lemma_dec_order_iff(a: nat, b: nat)
    requires
        dec_digits(a).len() == dec_digits(b).len(),
    ensures
        lex_lt(dec_digits(a), dec_digits(b)) <==> a < b,
        lex_le(dec_digits(a), dec_digits(b)) <==> a <= b,
{
    if a < b {
        lemma_dec_order(a, b);
    } else if b < a {
        lemma_dec_order(b, a);
        lemma_lex_lt_asym(dec_digits(b), dec_digits(a));
        if dec_digits(a) == dec_digits(b) {
            lemma_dec_digits_injective(a, b);
        }
    } else {
        lemma_lex_lt_irrefl(dec_digits(a));
    }
}

/// Encodes a timestamp as the bytes of its decimal string.
pub fn u64_to_dec(n: u64) -> (r: Vec<u8>)
    ensures
        r@ == dec_digits(n as nat),
    decreases n,
{
    if n < 10 {
        let mut r: Vec<u8> = Vec::new();
        r.push(48 + (n as u8));
        proof {
            assert((48 + n as nat) as u8 == 48 + (n as u8));
            assert(r@ =~= dec_digits(n as nat));
        }
        r
    } else {
        let mut r = u64_to_dec(n / 10);
        r.push(48 + ((n % 10) as u8));
        proof {
            assert((n / 10) as nat == (n as nat) / 10);
            assert((n % 10) as nat == (n as nat) % 10);
            assert((48 + (n as nat) % 10) as u8 == 48 + ((n % 10) as u8));
            assert(r@ =~= dec_digits(n as nat));
        }
        r
    }
}

proof fn lemma_dec_val_nonneg(s: Seq<u8>)
    requires
        all_dec_digits(s),
    ensures
        dec_val(s) >= 0,
    decreases s.len(),
{
    if s.len() > 0 {
        assert(all_dec_digits(s.drop_last())) by {
            assert forall|i: int| 0 <= i < s.len() - 1 implies is_dec_digit(s.drop_last()[i]) by {
                assert(s.drop_last()[i] == s[i]);
            }
        }
        lemma_dec_val_nonneg(s.drop_last());
        assert(is_dec_digit(s.last()));
    }
}

proof fn lemma_dec_val_prefix_mono(s: Seq<u8>, j: int)
    requires
        all_dec_digits(s),
        0 <= j <= s.len(),
    ensures
        dec_val(s) >= dec_val(s.subrange(0, j)),
    decreases s.len() - j,
{
    if j == s.len() {
        assert(s.subrange(0, j) =~= s);
    } else {
        let p = s.subrange(0, j);
        let q = s.subrange(0, j + 1);
        assert(q.drop_last() =~= p);
        assert(q.last() == s[j]);
        assert(all_dec_digits(p)) by {
            assert forall|i: int| 0 <= i < p.len() implies is_dec_digit(p[i]) by {
                assert(p[i] == s[i]);
            }
        }
        lemma_dec_val_nonneg(p);
        assert(is_dec_digit(s[j]));
        assert(dec_val(q) == dec_val(p) * 10 + (s[j] - 48));
        assert(dec_val(q) >= dec_val(p));
        lemma_dec_val_prefix_mono(s, j + 1);
    }
}

/// Parses a string of ASCII decimal digits as a 64-bit number.  Fails on an
/// empty string, on a byte that is not a digit, and on a value that does not
/// fit in 64 bits.
pub fn parse_dec(s: &Vec<u8>) -> (r: Option<u64>)
    ensures
        match r {
            Some(v) => s@.len() > 0 && all_dec_digits(s@) && dec_val(s@) == v,
            None => s@.len() == 0 || !all_dec_digits(s@) || dec_val(s@) > u64::MAX,
        },
{
    if s.len() == 0 {
        return None;
    }
    let mut acc: u64 = 0;
    let mut i: usize = 0;
    while i < s.len()
        invariant
            0 < s@.len(),
            i <= s@.len(),
            all_dec_digits(s@.subrange(0, i as int)),
            acc == dec_val(s@.subrange(0, i as int)),
        decreases s@.len() - i,
    {
        let b = s[i];
        if b < 48 || b > 57 {
            assert(!is_dec_digit(s@[i as int]));
            return None;
        }
        let d: u64 = (b - 48) as u64;
        proof {
            assert(s@.subrange(0, i as int + 1).drop_last() =~= s@.subrange(0, i as int));
            assert(s@.subrange(0, i as int + 1).last() == s@[i as int]);
            assert(all_dec_digits(s@.subrange(0, i as int + 1))) by {
                let q = s@.subrange(0, i as int + 1);
                assert forall|k: int| 0 <= k < q.len() implies is_dec_digit(q[k]) by {
                    if k < i as int {
                        assert(q[k] == s@.subrange(0, i as int)[k]);
                    } else {
                        assert(q[k] == s@[i as int]);
                    }
                }
            }
        }
        let m = match acc.checked_mul(10) {
            Some(m) => m,
            None => {
                proof {
                    if all_dec_digits(s@) {
                        assert(dec_val(s@.subrange(0, i as int + 1)) == acc * 10 + (s@[i as int]
                            - 48));
                        lemma_dec_val_prefix_mono(s@, i as int + 1);
                    }
                }
                return None;
            },
        };
        let acc2 = match m.checked_add(d) {
            Some(a) => a,
            None => {
                proof {
                    if all_dec_digits(s@) {
                        assert(dec_val(s@.subrange(0, i as int + 1)) == acc * 10 + (s@[i as int]
                            - 48));
                        lemma_dec_val_prefix_mono(s@, i as int + 1);
                    }
                }
                return None;
            },
        };
        acc = acc2;
        i = i + 1;
    }
    proof {
        assert(s@.subrange(0, s@.len() as int) =~= s@);
    }
    Some(acc)
}

} // verus!
