//! The wire form of a [`Command`] and its round trip with the token rules.
//!
//! A command travels as `<letter><value>`: unit markers as `G20`/`G21`,
//! integer tags as plain decimals, coordinates as decimals with the
//! thousandths printed only as far as they are non-zero.

use crate::num::{
    abs_u64, digits_valid, lemma_digits_round_trip, lemma_find_is, lemma_padded_round_trip,
    lemma_pow10_facts, magnitude, read_digits, spec_digits, spec_digits_padded, spec_find,
    spec_parse_coord, spec_parse_int,
};
use crate::Command;
use vstd::prelude::*;

verus! {

/// Wire digits of an integer tag value.
pub open spec fn spec_fmt_int(v: int) -> Seq<u8> {
    if v < 0 {
        seq![45u8] + spec_digits((-v) as nat)
    } else {
        spec_digits(v as nat)
    }
}

/// Wire digits of the fractional thousandths, shortest form, empty when zero.
pub open spec fn spec_frac_part(f: nat) -> Seq<u8> {
    if f == 0 {
        Seq::empty()
    } else if f % 100 == 0 {
        seq![46u8, (f / 100 + 48) as u8]
    } else if f % 10 == 0 {
        seq![46u8] + spec_digits_padded(f / 10, 2)
    } else {
        seq![46u8] + spec_digits_padded(f, 3)
    }
}

/// Wire form of a coordinate held as a signed count of thousandths.
pub open spec fn spec_fmt_milli(v: int) -> Seq<u8> {
    let m = magnitude(v);
    let body = spec_digits(m / 1000) + spec_frac_part(m % 1000);
    if v < 0 {
        seq![45u8] + body
    } else {
        body
    }
}

/// The serialized form of one command, without the line terminator.
pub open spec fn spec_wire_body(c: Command) -> Seq<u8> {
    match c {
        Command::G20 => seq![71u8, 50u8, 48u8],
        Command::G21 => seq![71u8, 50u8, 49u8],
        Command::N(v) => seq![78u8] + spec_fmt_int(v as int),
        Command::M(v) => seq![77u8] + spec_fmt_int(v as int),
        Command::J(v) => seq![74u8] + spec_fmt_int(v as int),
        Command::K(v) => seq![75u8] + spec_fmt_int(v as int),
        Command::X(v) => seq![88u8] + spec_fmt_milli(v as int),
        Command::Y(v) => seq![89u8] + spec_fmt_milli(v as int),
    }
}

/// The serialized form of one command including the line terminator.
pub open spec fn spec_wire_line(c: Command) -> Seq<u8> {
    spec_wire_body(c).push(10u8)
}

fn push_digits(out: &mut Vec<u8>, m: u64)
    ensures
        final(out)@ == old(out)@ + spec_digits(m as nat),
    decreases m,
{
    if m < 10 {
        out.push((m as u8) + 48);
        assert(out@ =~= old(out)@ + spec_digits(m as nat));
    } else {
        push_digits(out, m / 10);
        out.push(((m % 10) as u8) + 48);
        assert(out@ =~= old(out)@ + spec_digits(m as nat));
    }
}

fn push_digits_padded(out: &mut Vec<u8>, m: u64, k: usize)
    requires
        1 <= k <= 3,
    ensures
        final(out)@ == old(out)@ + spec_digits_padded(m as nat, k as nat),
    decreases k,
{
    if k == 1 {
        out.push(((m % 10) as u8) + 48);
        assert(out@ =~= old(out)@ + spec_digits_padded(m as nat, k as nat));
    } else {
        push_digits_padded(out, m / 10, k - 1);
        out.push(((m % 10) as u8) + 48);
        assert(out@ =~= old(out)@ + spec_digits_padded(m as nat, k as nat));
    }
}

fn push_fmt_int(out: &mut Vec<u8>, v: i64)
    ensures
        final(out)@ == old(out)@ + spec_fmt_int(v as int),
{
    let m = abs_u64(v);
    if v < 0 {
        out.push(45);
    }
    push_digits(out, m);
    assert(out@ =~= old(out)@ + spec_fmt_int(v as int));
}

fn push_fmt_milli(out: &mut Vec<u8>, v: i64)
    ensures
        final(out)@ == old(out)@ + spec_fmt_milli(v as int),
{
    let m = abs_u64(v);
    let ip = m / 1000;
    let f = m % 1000;
    if v < 0 {
        out.push(45);
    }
    push_digits(out, ip);
    if f != 0 {
        out.push(46);
        if f % 100 == 0 {
            out.push(((f / 100) as u8) + 48);
        } else if f % 10 == 0 {
            push_digits_padded(out, f / 10, 2);
        } else {
            push_digits_padded(out, f, 3);
        }
    }
    assert(out@ =~= old(out)@ + spec_fmt_milli(v as int));
}

impl Command {
    /// The serialized bytes of this command, without the line terminator.
    pub fn wire_body(&self) -> (r: Vec<u8>)
        ensures
            r@ == spec_wire_body(*self),
    {
        let mut out: Vec<u8> = Vec::new();
        match *self {
            Command::G20 => {
                out.push(71);
                out.push(50);
                out.push(48);
                assert(out@ =~= spec_wire_body(*self));
            },
            Command::G21 => {
                out.push(71);
                out.push(50);
                out.push(49);
                assert(out@ =~= spec_wire_body(*self));
            },
            Command::N(v) => {
                out.push(78);
                push_fmt_int(&mut out, v);
                assert(out@ =~= spec_wire_body(*self));
            },
            Command::M(v) => {
                out.push(77);
                push_fmt_int(&mut out, v);
                assert(out@ =~= spec_wire_body(*self));
            },
            Command::J(v) => {
                out.push(74);
                push_fmt_int(&mut out, v);
                assert(out@ =~= spec_wire_body(*self));
            },
            Command::K(v) => {
                out.push(75);
                push_fmt_int(&mut out, v);
                assert(out@ =~= spec_wire_body(*self));
            },
            Command::X(v) => {
                out.push(88);
                push_fmt_milli(&mut out, v);
                assert(out@ =~= spec_wire_body(*self));
            },
            Command::Y(v) => {
                out.push(89);
                push_fmt_milli(&mut out, v);
                assert(out@ =~= spec_wire_body(*self));
            },
        }
        out
    }

    /// The serialized bytes of this command followed by the line terminator.
    pub fn wire_line(&self) -> (r: Vec<u8>)
        ensures
            r@ == spec_wire_line(*self),
    {
        let mut out = self.wire_body();
        out.push(10);
        out
    }

    /// The serialized form of this command as text.
    pub fn to_string(&self) -> (r: String)
        ensures
            r@.len() == spec_wire_body(*self).len(),
            forall|i: int|
                0 <= i < r@.len() ==> r@[i] == #[trigger] (spec_wire_body(*self)[i] as char),
    {
        proof {
            lemma_wire_body_ascii(*self);
        }
        ascii_string(self.wire_body())
    }
}

/// Relies on `String::from_utf8`: bytes below 128 are valid UTF-8 and decode
/// to the characters with the same code points.
#[verifier::external_body]
fn ascii_string(v: Vec<u8>) -> (r: String)
    requires
        forall|i: int| 0 <= i < v@.len() ==> v@[i] < 128,
    ensures
        r@.len() == v@.len(),
        forall|i: int| 0 <= i < v@.len() ==> r@[i] == #[trigger] (v@[i] as char),
{
    String::from_utf8(v).unwrap_or_default()
}

proof fn lemma_digits_ascii(n: nat)
    ensures
        forall|i: int| 0 <= i < spec_digits(n).len() ==> #[trigger] spec_digits(n)[i] < 128,
{
    lemma_digits_round_trip(n);
}

/// Every byte of a wire body is plain ASCII.
pub proof fn lemma_wire_body_ascii(c: Command)
    ensures
        forall|i: int| 0 <= i < spec_wire_body(c).len() ==> #[trigger] spec_wire_body(c)[i] < 128,
{
    lemma_pow10_facts();
    match c {
        Command::G20 => {},
        Command::G21 => {},
        Command::N(v) => {
            lemma_digits_ascii(magnitude(v as int));
        },
        Command::M(v) => {
            lemma_digits_ascii(magnitude(v as int));
        },
        Command::J(v) => {
            lemma_digits_ascii(magnitude(v as int));
        },
        Command::K(v) => {
            lemma_digits_ascii(magnitude(v as int));
        },
        Command::X(v) => {
            lemma_fmt_milli_ascii(v as int);
        },
        Command::Y(v) => {
            lemma_fmt_milli_ascii(v as int);
        },
    }
}

proof fn lemma_fmt_milli_ascii(v: int)
    ensures
        forall|i: int| 0 <= i < spec_fmt_milli(v).len() ==> #[trigger] spec_fmt_milli(v)[i] < 128,
{
    lemma_pow10_facts();
    let m = magnitude(v);
    let f = m % 1000;
    lemma_digits_ascii(m / 1000);
    if f != 0 {
        if f % 100 == 0 {
        } else if f % 10 == 0 {
            lemma_padded_round_trip(f / 10, 2);
        } else {
            lemma_padded_round_trip(f, 3);
        }
    }
}

/// Every command's wire body, reparsed by the token-decoding rule for its
/// field, yields the original value exactly.
pub proof fn lemma_wire_round_trip(c: Command)
    ensures
        match c {
            Command::G20 => spec_parse_int(spec_wire_body(c).subrange(1, 3)) == Some(20i64),
            Command::G21 => spec_parse_int(spec_wire_body(c).subrange(1, 3)) == Some(21i64),
            Command::N(v) => spec_parse_int(
                spec_wire_body(c).subrange(1, spec_wire_body(c).len() as int),
            ) == Some(v),
            Command::M(v) => spec_parse_int(
                spec_wire_body(c).subrange(1, spec_wire_body(c).len() as int),
            ) == Some(v),
            Command::J(v) => spec_parse_int(
                spec_wire_body(c).subrange(1, spec_wire_body(c).len() as int),
            ) == Some(v),
            Command::K(v) => spec_parse_int(
                spec_wire_body(c).subrange(1, spec_wire_body(c).len() as int),
            ) == Some(v),
            Command::X(v) => spec_parse_coord(
                spec_wire_body(c).subrange(1, spec_wire_body(c).len() as int),
            ) == Some(v),
            Command::Y(v) => spec_parse_coord(
                spec_wire_body(c).subrange(1, spec_wire_body(c).len() as int),
            ) == Some(v),
        },
{
    match c {
        Command::G20 => {
            let t = spec_wire_body(c).subrange(1, 3);
            assert(t =~= seq![50u8, 48u8]);
            assert(digits_valid(t));
            assert(read_digits(t) == 20) by {
                assert(t.drop_last() =~= seq![50u8]);
                assert(seq![50u8].drop_last() =~= Seq::<u8>::empty());
                assert(read_digits(Seq::<u8>::empty()) == 0);
                assert(read_digits(seq![50u8]) == 2);
            }
        },
        Command::G21 => {
            let t = spec_wire_body(c).subrange(1, 3);
            assert(t =~= seq![50u8, 49u8]);
            assert(digits_valid(t));
            assert(read_digits(t) == 21) by {
                assert(t.drop_last() =~= seq![50u8]);
                assert(seq![50u8].drop_last() =~= Seq::<u8>::empty());
                assert(read_digits(Seq::<u8>::empty()) == 0);
                assert(read_digits(seq![50u8]) == 2);
            }
        },
        Command::N(v) => lemma_int_round_trip(v, 78),
        Command::M(v) => lemma_int_round_trip(v, 77),
        Command::J(v) => lemma_int_round_trip(v, 74),
        Command::K(v) => lemma_int_round_trip(v, 75),
        Command::X(v) => lemma_coord_round_trip(v, 88),
        Command::Y(v) => lemma_coord_round_trip(v, 89),
    }
}

proof fn lemma_int_round_trip(v: i64, letter: u8)
    ensures
        spec_parse_int(
            (seq![letter] + spec_fmt_int(v as int)).subrange(
                1,
                (seq![letter] + spec_fmt_int(v as int)).len() as int,
            ),
        ) == Some(v),
{
    let w = seq![letter] + spec_fmt_int(v as int);
    let t = w.subrange(1, w.len() as int);
    assert(t =~= spec_fmt_int(v as int));
    if v < 0 {
        let d = spec_digits((-(v as int)) as nat);
        lemma_digits_round_trip((-(v as int)) as nat);
        assert(t[0] == 45);
        assert(t.subrange(1, t.len() as int) =~= d);
    } else {
        let d = spec_digits(v as nat);
        lemma_digits_round_trip(v as nat);
        assert(t =~= d);
        assert(48 <= t[0] <= 57);
    }
}

proof fn lemma_coord_round_trip(v: i64, letter: u8)
    ensures
        spec_parse_coord(
            (seq![letter] + spec_fmt_milli(v as int)).subrange(
                1,
                (seq![letter] + spec_fmt_milli(v as int)).len() as int,
            ),
        ) == Some(v),
{
    let w = seq![letter] + spec_fmt_milli(v as int);
    let t = w.subrange(1, w.len() as int);
    assert(t =~= spec_fmt_milli(v as int));
    let m = magnitude(v as int);
    let bs = spec_digits(m / 1000) + spec_frac_part(m % 1000);
    if v < 0 {
        assert(t[0] == 45);
        assert(t.subrange(1, t.len() as int) =~= bs);
        lemma_coord_body_reads(m);
        assert(m <= 9223372036854775808);
    } else {
        lemma_coord_body_reads(m);
        assert(t =~= bs);
        lemma_digits_round_trip(m / 1000);
        assert(bs[0] != 45 && bs[0] != 43);
        assert(m <= 9223372036854775807);
    }
}

/// The printed coordinate body reads back to the same count of thousandths.
proof fn lemma_coord_body_reads(m: nat)
    ensures
        ({
            let bs = spec_digits(m / 1000) + spec_frac_part(m % 1000);
            let p = spec_find(bs, 46);
            &&& (m % 1000 == 0 ==> p == bs.len() && digits_valid(bs) && read_digits(bs) * 1000
                == m)
            &&& (m % 1000 != 0 ==> {
                let ip = bs.subrange(0, p);
                let fs = bs.subrange(p + 1, bs.len() as int);
                &&& p < bs.len()
                &&& digits_valid(ip)
                &&& digits_valid(fs)
                &&& 1 <= fs.len() <= 3
                &&& read_digits(ip) * 1000 + read_digits(fs) * crate::num::pow10(
                    (3 - fs.len()) as nat,
                ) == m
            })
        }),
{
    lemma_pow10_facts();
    let ipd = spec_digits(m / 1000);
    let f = m % 1000;
    let bs = ipd + spec_frac_part(f);
    lemma_digits_round_trip(m / 1000);
    vstd::arithmetic::div_mod::lemma_fundamental_div_mod(m as int, 1000);
    if f == 0 {
        assert(bs =~= ipd);
        lemma_find_is(bs, 46, bs.len() as int);
    } else {
        let p = ipd.len() as int;
        assert(bs[p] == 46);
        lemma_find_is(bs, 46, p);
        let ip = bs.subrange(0, p);
        let fs = bs.subrange(p + 1, bs.len() as int);
        assert(ip =~= ipd);
        if f % 100 == 0 {
            assert(fs =~= seq![(f / 100 + 48) as u8]);
            assert(seq![(f / 100 + 48) as u8].drop_last() =~= Seq::<u8>::empty());
            assert(read_digits(Seq::<u8>::empty()) == 0);
            assert(read_digits(seq![(f / 100 + 48) as u8]) == f / 100);
            assert(read_digits(fs) == f / 100);
            vstd::arithmetic::div_mod::lemma_fundamental_div_mod(f as int, 100);
            assert(read_digits(fs) * crate::num::pow10(2) == f);
        } else if f % 10 == 0 {
            lemma_padded_round_trip(f / 10, 2);
            assert(fs =~= spec_digits_padded(f / 10, 2));
            vstd::arithmetic::div_mod::lemma_fundamental_div_mod(f as int, 10);
            assert(read_digits(fs) * crate::num::pow10(1) == f);
        } else {
            lemma_padded_round_trip(f, 3);
            assert(fs =~= spec_digits_padded(f, 3));
            assert(read_digits(fs) * crate::num::pow10(0) == f);
        }
    }
}

} // verus!
