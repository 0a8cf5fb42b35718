//! Decoding and encoding of the numeric tokens of the wire dialect.
//!
//! Integer tags travel as plain decimal integers.  Coordinates travel as
//! decimal numbers with up to three fraction digits and are held exactly,
//! as a signed count of thousandths of a coordinate unit.

use vstd::prelude::*;

verus! {

/// Greatest magnitude, in thousandths, that a signed 64-bit count can hold
/// when the sign is negative.
pub const MAX_NEG_MAGNITUDE: u128 = 9223372036854775808;

pub open spec fn is_digit(b: u8) -> bool {
    48 <= b <= 57
}

/// All bytes are decimal digits and there is at least one.
pub open spec fn digits_valid(s: Seq<u8>) -> bool {
    s.len() > 0 && forall|i: int| 0 <= i < s.len() ==> is_digit(s[i])
}

/// The value of a run of decimal digit bytes, most significant first.
pub open spec fn read_digits(s: Seq<u8>) -> int
    decreases s.len(),
{
    if s.len() == 0 {
        0
    } else {
        read_digits(s.drop_last()) * 10 + (s.last() - 48)
    }
}

pub open spec fn pow10(k: nat) -> int
    decreases k,
{
    if k == 0 {
        1
    } else {
        10 * pow10((k - 1) as nat)
    }
}

/// The shortest decimal digit run for a value, most significant first.
pub open spec fn spec_digits(n: nat) -> Seq<u8>
    decreases n,
{
    if n < 10 {
        seq![(n + 48) as u8]
    } else {
        spec_digits(n / 10).push((n % 10 + 48) as u8)
    }
}

/// A decimal digit run of exactly `k` digits, zero padded on the left.
pub open spec fn spec_digits_padded(n: nat, k: nat) -> Seq<u8>
    decreases k,
{
    if k <= 1 {
        seq![(n % 10 + 48) as u8]
    } else {
        spec_digits_padded(n / 10, (k - 1) as nat).push((n % 10 + 48) as u8)
    }
}

/// Index of the first occurrence of `sep`, or the length when absent.
pub open spec fn spec_find(s: Seq<u8>, sep: u8) -> int
    decreases s.len(),
{
    if s.len() == 0 {
        0
    } else if s[0] == sep {
        0
    } else {
        1 + spec_find(s.subrange(1, s.len() as int), sep)
    }
}

pub proof fn lemma_find_is(s: Seq<u8>, sep: u8, k: int)
    requires
        0 <= k <= s.len(),
        forall|i: int| 0 <= i < k ==> s[i] != sep,
        k == s.len() || s[k] == sep,
    ensures
        spec_find(s, sep) == k,
    decreases k,
{
    if s.len() == 0 {
    } else if k == 0 {
    } else {
        let t = s.subrange(1, s.len() as int);
        assert(forall|i: int| 0 <= i < k - 1 ==> t[i] == s[i + 1] && s[i + 1] != sep);
        lemma_find_is(t, sep, k - 1);
    }
}

pub proof fn lemma_read_nonneg(s: Seq<u8>)
    requires
        forall|i: int| 0 <= i < s.len() ==> is_digit(s[i]),
    ensures
        read_digits(s) >= 0,
    decreases s.len(),
{
    if s.len() > 0 {
        lemma_read_nonneg(s.drop_last());
    }
}

/// With digits everywhere, a prefix never reads to more than the whole.
pub proof fn lemma_read_prefix_le(s: Seq<u8>, k: int)
    requires
        forall|i: int| 0 <= i < s.len() ==> is_digit(s[i]),
        0 <= k <= s.len(),
    ensures
        read_digits(s.take(k)) <= read_digits(s),
    decreases s.len() - k,
{
    if k == s.len() {
        assert(s.take(k) =~= s);
    } else {
        let t = s.take(k + 1);
        assert(t.drop_last() =~= s.take(k));
        lemma_read_nonneg(s.take(k));
        assert(read_digits(t) == read_digits(s.take(k)) * 10 + (s[k] - 48));
        lemma_read_prefix_le(s, k + 1);
    }
}

/// A run of `k` digits reads to less than `10^k`.
pub proof fn lemma_read_bound(s: Seq<u8>)
    requires
        forall|i: int| 0 <= i < s.len() ==> is_digit(s[i]),
    ensures
        read_digits(s) < pow10(s.len()),
    decreases s.len(),
{
    if s.len() > 0 {
        lemma_read_bound(s.drop_last());
    }
}

pub proof fn lemma_digits_round_trip(n: nat)
    ensures
        digits_valid(spec_digits(n)),
        read_digits(spec_digits(n)) == n,
    decreases n,
{
    if n < 10 {
        let s = seq![(n + 48) as u8];
        assert(s.len() == 1);
        assert(s.last() == (n + 48) as u8);
        assert(s.drop_last().len() == 0);
        assert(read_digits(s.drop_last()) == 0);
        assert(read_digits(s) == s.last() - 48);
    } else {
        lemma_digits_round_trip(n / 10);
        let s = spec_digits(n / 10).push((n % 10 + 48) as u8);
        assert(s.drop_last() =~= spec_digits(n / 10));
        assert(s.last() == (n % 10 + 48) as u8);
        vstd::arithmetic::div_mod::lemma_fundamental_div_mod(n as int, 10);
        assert(read_digits(s) == (n / 10) * 10 + (n % 10));
    }
}

pub proof fn lemma_padded_round_trip(n: nat, k: nat)
    requires
        1 <= k,
        n < pow10(k),
    ensures
        digits_valid(spec_digits_padded(n, k)),
        spec_digits_padded(n, k).len() == k,
        read_digits(spec_digits_padded(n, k)) == n,
    decreases k,
{
    lemma_pow10_facts();
    if k <= 1 {
        assert(n % 10 == n);
        let s = seq![(n % 10 + 48) as u8];
        assert(s.len() == 1);
        assert(s.last() == (n % 10 + 48) as u8);
        assert(s.drop_last().len() == 0);
        assert(read_digits(s.drop_last()) == 0);
        assert(read_digits(s) == s.last() - 48);
    } else {
        assert(n / 10 < pow10((k - 1) as nat)) by {
            assert(pow10(k) == 10 * pow10((k - 1) as nat));
        }
        lemma_padded_round_trip(n / 10, (k - 1) as nat);
        let s = spec_digits_padded(n / 10, (k - 1) as nat).push((n % 10 + 48) as u8);
        assert(s.drop_last() =~= spec_digits_padded(n / 10, (k - 1) as nat));
        assert(s.last() == (n % 10 + 48) as u8);
        vstd::arithmetic::div_mod::lemma_fundamental_div_mod(n as int, 10);
        assert(read_digits(s) == (n / 10) * 10 + (n % 10));
    }
}

/// Signed integer token: an optional sign, then decimal digits, accepted
/// exactly when the signed value fits a 64-bit count.
pub open spec fn spec_parse_int(s: Seq<u8>) -> Option<i64> {
    if s.len() > 0 && (s[0] == 45 || s[0] == 43) {
        spec_int_from(s.subrange(1, s.len() as int), s[0] == 45)
    } else {
        spec_int_from(s, false)
    }
}

pub open spec fn spec_int_from(ds: Seq<u8>, neg: bool) -> Option<i64> {
    if digits_valid(ds) {
        spec_signed_in_range(read_digits(ds), neg)
    } else {
        None
    }
}

pub open spec fn spec_signed_in_range(m: int, neg: bool) -> Option<i64> {
    if neg {
        if m <= MAX_NEG_MAGNITUDE {
            Some((-m) as i64)
        } else {
            None
        }
    } else {
        if m <= i64::MAX {
            Some(m as i64)
        } else {
            None
        }
    }
}

/// Coordinate token: an optional sign, an integer digit run, and optionally
/// a point followed by one to three fraction digits.  The value is the
/// signed count of thousandths, accepted exactly when it fits 64 bits.
pub open spec fn spec_parse_coord(s: Seq<u8>) -> Option<i64> {
    if s.len() > 0 && (s[0] == 45 || s[0] == 43) {
        spec_coord_from(s.subrange(1, s.len() as int), s[0] == 45)
    } else {
        spec_coord_from(s, false)
    }
}

pub open spec fn spec_coord_from(bs: Seq<u8>, neg: bool) -> Option<i64> {
    let p = spec_find(bs, 46);
    if p == bs.len() {
        if digits_valid(bs) {
            spec_signed_in_range(read_digits(bs) * 1000, neg)
        } else {
            None
        }
    } else {
        let ip = bs.subrange(0, p);
        let fs = bs.subrange(p + 1, bs.len() as int);
        if digits_valid(ip) && digits_valid(fs) && fs.len() <= 3 {
            spec_signed_in_range(
                read_digits(ip) * 1000 + read_digits(fs) * pow10((3 - fs.len()) as nat),
                neg,
            )
        } else {
            None
        }
    }
}

/// The magnitude of a signed value.
pub open spec fn magnitude(v: int) -> nat {
    if v < 0 {
        (-v) as nat
    } else {
        v as nat
    }
}

pub fn abs_u64(v: i64) -> (m: u64)
    ensures
        m == magnitude(v as int),
{
    if v >= 0 {
        v as u64
    } else {
        (-(v as i128)) as u64
    }
}

/// Scaling down by a denominator at least as large as the factor cannot
/// grow the other factor.
pub proof fn lemma_mul_div_le(a: int, b: int, d: int)
    requires
        0 <= a,
        0 <= b <= d,
        0 < d,
    ensures
        (a * b) / d <= a,
        0 <= (a * b) / d,
{
    vstd::arithmetic::mul::lemma_mul_inequality(b, d, a);
    vstd::arithmetic::div_mod::lemma_div_is_ordered(a * b, a * d, d);
    vstd::arithmetic::div_mod::lemma_div_multiples_vanish(a, d);
    vstd::arithmetic::mul::lemma_mul_nonnegative(a, b);
    vstd::arithmetic::div_mod::lemma_div_pos_is_pos(a * b, d);
}

pub proof fn lemma_pow10_facts()
    ensures
        pow10(0) == 1,
        pow10(1) == 10,
        pow10(2) == 100,
        pow10(3) == 1000,
{
    reveal_with_fuel(pow10, 5);
}

/// Reads a digit run, refusing anything past the greatest magnitude a
/// signed 64-bit count can carry.
fn read_digits_checked(ds: &[u8]) -> (r: Option<u128>)
    ensures
        match r {
            Some(m) => digits_valid(ds@) && read_digits(ds@) == m && m <= MAX_NEG_MAGNITUDE,
            None => !(digits_valid(ds@) && read_digits(ds@) <= MAX_NEG_MAGNITUDE),
        },
{
    if ds.len() == 0 {
        return None;
    }
    let mut acc: u128 = 0;
    let mut i: usize = 0;
    while i < ds.len()
        invariant
            0 <= i <= ds@.len(),
            forall|j: int| 0 <= j < i ==> is_digit(ds@[j]),
            acc == read_digits(ds@.take(i as int)),
            acc <= MAX_NEG_MAGNITUDE,
        decreases ds@.len() - i,
    {
        let b = ds[i];
        if b < 48 || b > 57 {
            return None;
        }
        let next: u128 = acc * 10 + ((b - 48) as u128);
        proof {
            let t = ds@.take(i + 1);
            assert(t.drop_last() =~= ds@.take(i as int));
            assert(read_digits(t) == next);
        }
        if next > MAX_NEG_MAGNITUDE {
            proof {
                if digits_valid(ds@) {
                    lemma_read_prefix_le(ds@, i + 1);
                }
            }
            return None;
        }
        acc = next;
        i = i + 1;
    }
    proof {
        assert(ds@.take(i as int) =~= ds@);
    }
    Some(acc)
}

fn signed_in_range(m: u128, neg: bool) -> (r: Option<i64>)
    requires
        m <= MAX_NEG_MAGNITUDE,
    ensures
        r == spec_signed_in_range(m as int, neg),
{
    if neg {
        if m == MAX_NEG_MAGNITUDE {
            Some(i64::MIN)
        } else {
            Some(-((m as i64)))
        }
    } else {
        if m == MAX_NEG_MAGNITUDE {
            None
        } else {
            Some(m as i64)
        }
    }
}

/// Decodes an integer token.
pub fn parse_int(tok: &[u8]) -> (r: Option<i64>)
    ensures
        r == spec_parse_int(tok@),
{
    if tok.len() > 0 && (tok[0] == 45 || tok[0] == 43) {
        let neg = tok[0] == 45;
        let ds = &tok[1..tok.len()];
        match read_digits_checked(ds) {
            Some(m) => signed_in_range(m, neg),
            None => None,
        }
    } else {
        match read_digits_checked(tok) {
            Some(m) => signed_in_range(m, false),
            None => None,
        }
    }
}

fn pow10_small(k: usize) -> (r: u64)
    requires
        k <= 3,
    ensures
        r == pow10(k as nat),
{
    proof {
        lemma_pow10_facts();
    }
    if k == 0 {
        1
    } else if k == 1 {
        10
    } else if k == 2 {
        100
    } else {
        1000
    }
}

fn find_byte(s: &[u8], sep: u8) -> (r: usize)
    ensures
        r == spec_find(s@, sep),
        r <= s@.len(),
{
    let mut i: usize = 0;
    while i < s.len()
        invariant
            0 <= i <= s@.len(),
            forall|j: int| 0 <= j < i ==> s@[j] != sep,
        decreases s@.len() - i,
    {
        if s[i] == sep {
            proof {
                lemma_find_is(s@, sep, i as int);
            }
            return i;
        }
        i = i + 1;
    }
    proof {
        lemma_find_is(s@, sep, s@.len() as int);
    }
    i
}

fn coord_from(bs: &[u8], neg: bool) -> (r: Option<i64>)
    ensures
        r == spec_coord_from(bs@, neg),
{
    let p = find_byte(bs, 46);
    if p == bs.len() {
        match read_digits_checked(bs) {
            Some(m) => {
                if m > MAX_NEG_MAGNITUDE / 1000 {
                    proof {
                        assert(read_digits(bs@) * 1000 > MAX_NEG_MAGNITUDE);
                    }
                    None
                } else {
                    signed_in_range(m * 1000, neg)
                }
            },
            None => {
                proof {
                    if digits_valid(bs@) {
                        lemma_read_nonneg(bs@);
                    }
                }
                None
            },
        }
    } else {
        let ip = &bs[0..p];
        let fs = &bs[p + 1..bs.len()];
        if fs.len() > 3 {
            return None;
        }
        proof {
            lemma_pow10_facts();
        }
        let im = match read_digits_checked(ip) {
            Some(m) => m,
            None => {
                proof {
                    if digits_valid(ip@) && digits_valid(fs@) {
                        // the integer part alone already overflows
                        lemma_read_nonneg(fs@);
                        assert(read_digits(fs@) * pow10((3 - fs@.len()) as nat) >= 0)
                            by (nonlinear_arith)
                            requires
                                read_digits(fs@) >= 0,
                                pow10((3 - fs@.len()) as nat) >= 1,
                        ;
                    }
                }
                return None;
            },
        };
        let fm = match read_digits_checked(fs) {
            Some(m) => m,
            None => {
                proof {
                    if digits_valid(fs@) {
                        // the fraction digits alone already overflow
                        lemma_read_nonneg(ip@);
                        assert(read_digits(fs@) * pow10((3 - fs@.len()) as nat)
                            >= read_digits(fs@)) by (nonlinear_arith)
                            requires
                                read_digits(fs@) >= 0,
                                pow10((3 - fs@.len()) as nat) >= 1,
                        ;
                    }
                }
                return None;
            },
        };
        proof {
            lemma_read_bound(fs@);
            assert(pow10(fs@.len() as nat) <= 1000);
            assert(fm * (pow10((3 - fs@.len()) as nat)) < 1000000) by (nonlinear_arith)
                requires
                    0 <= fm < 1000,
                    1 <= pow10((3 - fs@.len()) as nat) <= 1000,
            ;
        }
        let scale = pow10_small(3 - fs.len());
        let total: u128 = im * 1000 + fm * (scale as u128);
        if total > MAX_NEG_MAGNITUDE {
            None
        } else {
            signed_in_range(total, neg)
        }
    }
}

/// Decodes a coordinate token into thousandths.
pub fn parse_coord(tok: &[u8]) -> (r: Option<i64>)
    ensures
        r == spec_parse_coord(tok@),
{
    if tok.len() > 0 && (tok[0] == 45 || tok[0] == 43) {
        let neg = tok[0] == 45;
        coord_from(&tok[1..tok.len()], neg)
    } else {
        coord_from(tok, false)
    }
}

} // verus!
