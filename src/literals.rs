use vstd::prelude::*;

use vstd::arithmetic::div_mod::{lemma_fundamental_div_mod, lemma_mod_bound};

use crate::scanner::{
    digit_value, run, step, ScanModel, ScannerState, Token, CR, DIGIT_0, LOWER_A, LOWER_B,
    LOWER_D, LOWER_O, LOWER_X, MINUS, SPACE,
};

verus! {

/// Running over `a` then `b` is running over `a + b`.
pub proof fn lemma_run_concat(m: ScanModel, a: Seq<u8>, b: Seq<u8>)
    ensures
        run(m, a + b).0 == run(run(m, a).0, b).0,
        run(m, a + b).1 == run(m, a).1 + run(run(m, a).0, b).1,
    decreases b.len(),
{
    if b.len() == 0 {
        assert(a + b =~= a);
        assert(run(m, a).1 + run(run(m, a).0, b).1 =~= run(m, a).1);
    } else {
        lemma_run_concat(m, a, b.drop_last());
        assert((a + b).drop_last() =~= a + b.drop_last());
        assert((a + b).last() == b.last());
        let mid = run(m, a);
        let prev = run(mid.0, b.drop_last());
        let next = step(prev.0, b.last());
        match next.1 {
            Some(t) => {
                assert(mid.1 + prev.1.push((t, next.0)) =~= (mid.1 + prev.1).push((t, next.0)));
            },
            None => {},
        }
    }
}


/// The ASCII digit for `d`, lower-case letters above nine.
pub open spec fn digit_char(d: nat) -> u8 {
    if d < 10 {
        (DIGIT_0 + d) as u8
    } else {
        (LOWER_A + d - 10) as u8
    }
}

pub open spec fn valid_radix(radix: nat) -> bool {
    radix == 2 || radix == 8 || radix == 10 || radix == 16
}

/// The digits of `n` in `radix`, most significant first, with no leading
/// zeros.
pub open spec fn digits_of(n: nat, radix: nat) -> Seq<u8>
    decreases n,
    via digits_of_decreases
{
    if radix < 2 || n < radix {
        seq![digit_char(n)]
    } else {
        digits_of(n / radix, radix).push(digit_char(n % radix))
    }
}

#[via_fn]
proof fn digits_of_decreases(n: nat, radix: nat) {
    if !(radix < 2 || n < radix) {
        assert(n / radix < n) by (nonlinear_arith)
            requires
                radix >= 2,
                n >= radix,
        ;
    }
}

/// What announces a radix: `0b`, `0o`, `0x`, or nothing for decimal.
pub open spec fn radix_prefix(radix: nat) -> Seq<u8> {
    if radix == 2 {
        seq![DIGIT_0, LOWER_B]
    } else if radix == 8 {
        seq![DIGIT_0, LOWER_O]
    } else if radix == 16 {
        seq![DIGIT_0, LOWER_X]
    } else {
        Seq::empty()
    }
}

pub open spec fn magnitude(n: int) -> nat {
    if n < 0 {
        (-n) as nat
    } else {
        n as nat
    }
}

/// The literal form of `n` in `radix`: an optional `-`, the radix prefix,
/// then the digits of its magnitude.
pub open spec fn literal(n: int, radix: nat) -> Seq<u8> {
    let sign = if n < 0 {
        seq![MINUS]
    } else {
        Seq::empty()
    };
    sign + radix_prefix(radix) + digits_of(magnitude(n), radix)
}

/// The state that reads the digits of `radix`.
pub open spec fn number_state(radix: nat) -> ScannerState {
    if radix == 2 {
        ScannerState::BinaryNumber
    } else if radix == 8 {
        ScannerState::OctalNumber
    } else if radix == 16 {
        ScannerState::HexadecimalNumber
    } else {
        ScannerState::DecimalNumber
    }
}

/// Scanning `bytes` from `m` emits exactly one token, a number whose value
/// is `n`, and leaves the scanner in `next` with the text untouched.
pub open spec fn scans_to_number(m: ScanModel, bytes: Seq<u8>, n: int, next: ScannerState) -> bool {
    let r = run(m, bytes);
    &&& r.1.len() == 1
    &&& r.1[0].0 == Token::Number
    &&& r.1[0].1 == r.0
    &&& r.0.number == n
    &&& r.0.state == next
    &&& r.0.text == m.text
}

pub proof fn lemma_run_push(m: ScanModel, bs: Seq<u8>, c: u8)
    ensures
        run(m, bs.push(c)) == ({
            let prev = run(m, bs);
            let next = step(prev.0, c);
            match next.1 {
                Some(t) => (next.0, prev.1.push((t, next.0))),
                None => (next.0, prev.1),
            }
        }),
{
    assert(bs.push(c).drop_last() =~= bs);
}

proof fn lemma_digit_char(d: nat, radix: nat)
    requires
        valid_radix(radix),
        d < radix,
    ensures
        digit_value(digit_char(d), radix as int) == Some(d as int),
        digit_char(d) != SPACE,
        digit_char(d) != CR,
        d == 0 ==> digit_char(d) == DIGIT_0,
        0 < d < 10 ==> DIGIT_0 < digit_char(d) <= DIGIT_0 + 9,
{
}

proof fn lemma_digits_shape(n: nat, radix: nat)
    requires
        valid_radix(radix),
        n >= radix,
    ensures
        digits_of(n, radix) == digits_of(n / radix, radix).push(digit_char(n % radix)),
        n / radix < n,
        n / radix >= 1,
        (n / radix) * radix + n % radix == n,
        n % radix < radix,
{
    lemma_fundamental_div_mod(n as int, radix as int);
    lemma_mod_bound(n as int, radix as int);
    assert((n / radix) * radix <= n) by (nonlinear_arith)
        requires
            (n / radix) * radix + n % radix == n,
            n % radix >= 0,
    ;
    assert(n / radix >= 1) by (nonlinear_arith)
        requires
            (n / radix) * radix + n % radix == n,
            n % radix < radix,
            n >= radix,
            radix >= 2,
    ;
    assert(n / radix < n) by (nonlinear_arith)
        requires
            (n / radix) * radix <= n,
            n / radix >= 1,
            radix >= 2,
    ;
}

/// In a number state with nothing accumulated, the digits of `n` accumulate
/// to `n`, and no token comes out.
proof fn lemma_digits_accumulate(p: ScanModel, n: nat, radix: nat)
    requires
        valid_radix(radix),
        p.state == number_state(radix),
        p.number == 0,
        n <= i32::MAX,
    ensures
        run(p, digits_of(n, radix)) == (ScanModel { number: n as i32, ..p }, Seq::<(Token, ScanModel)>::empty()),
    decreases n,
{
    if n < radix {
        lemma_digit_char(n, radix);
        lemma_run_push(p, Seq::empty(), digit_char(n));
        assert(Seq::<u8>::empty().push(digit_char(n)) =~= digits_of(n, radix));
    } else {
        lemma_digits_shape(n, radix);
        let q = n / radix;
        lemma_digits_accumulate(p, q, radix);
        lemma_digit_char(n % radix, radix);
        lemma_run_push(p, digits_of(q, radix), digit_char(n % radix));
        assert(q * radix <= n) by (nonlinear_arith)
            requires
                q * radix + n % radix == n,
                n % radix >= 0,
        ;
    }
}

/// From the start of a token, right after a `-`, or right after a leading
/// `0`, the decimal digits of a positive `n` accumulate to `n` in the
/// decimal state.
proof fn lemma_decimal_lead(m: ScanModel, n: nat)
    requires
        1 <= n <= i32::MAX,
        m.state == ScannerState::Initial || ((m.state == ScannerState::NumberWithSign || m.state
            == ScannerState::AnyNumber) && m.number == 0),
    ensures
        run(m, digits_of(n, 10)) == (
            ScanModel {
                state: ScannerState::DecimalNumber,
                number: n as i32,
                negative: if m.state == ScannerState::Initial {
                    false
                } else {
                    m.negative
                },
                ..m
            },
            Seq::<(Token, ScanModel)>::empty(),
        ),
    decreases n,
{
    if n < 10 {
        lemma_digit_char(n, 10);
        lemma_run_push(m, Seq::empty(), digit_char(n));
        assert(Seq::<u8>::empty().push(digit_char(n)) =~= digits_of(n, 10));
    } else {
        lemma_digits_shape(n, 10);
        let q = n / 10;
        lemma_decimal_lead(m, q);
        lemma_digit_char(n % 10, 10);
        lemma_run_push(m, digits_of(q, 10), digit_char(n % 10));
        assert(q * 10 <= n) by (nonlinear_arith)
            requires
                q * 10 + n % 10 == n,
                n % 10 >= 0,
        ;
    }
}


/// Running over the sign and the radix prefix of a literal.
proof fn lemma_literal_head(m: ScanModel, n: int, radix: nat)
    requires
        m.state == ScannerState::Initial,
        valid_radix(radix),
        radix != 10,
    ensures
        ({
            let sign = if n < 0 {
                seq![MINUS]
            } else {
                Seq::empty()
            };
            run(m, sign + radix_prefix(radix)) == (
                ScanModel { state: number_state(radix), number: 0, negative: n < 0, ..m },
                Seq::<(Token, ScanModel)>::empty(),
            )
        }),
{
    let sign = if n < 0 {
        seq![MINUS]
    } else {
        Seq::<u8>::empty()
    };
    let l = radix_prefix(radix)[1];
    if n < 0 {
        let e = Seq::<u8>::empty();
        lemma_run_push(m, e, MINUS);
        lemma_run_push(m, e.push(MINUS), DIGIT_0);
        lemma_run_push(m, e.push(MINUS).push(DIGIT_0), l);
        assert(sign + radix_prefix(radix) =~= e.push(MINUS).push(DIGIT_0).push(l));
    } else {
        let e = Seq::<u8>::empty();
        lemma_run_push(m, e, DIGIT_0);
        lemma_run_push(m, e.push(DIGIT_0), l);
        assert(sign + radix_prefix(radix) =~= e.push(DIGIT_0).push(l));
    }
}

/// Running over a whole literal, up to its last digit: nothing is emitted,
/// and the magnitude sits in the radix's number state (or in the state
/// after a lone `0`).
proof fn lemma_literal_body(m: ScanModel, n: int, radix: nat)
    requires
        m.state == ScannerState::Initial,
        valid_radix(radix),
        -i32::MAX <= n <= i32::MAX,
    ensures
        run(m, literal(n, radix)).1 == Seq::<(Token, ScanModel)>::empty(),
        run(m, literal(n, radix)).0.number == magnitude(n),
        run(m, literal(n, radix)).0.negative == (n < 0),
        run(m, literal(n, radix)).0.text == m.text,
        run(m, literal(n, radix)).0.state == number_state(radix) || (run(
            m,
            literal(n, radix),
        ).0.state == ScannerState::AnyNumber),
{
    let e = Seq::<u8>::empty();
    let sign = if n < 0 {
        seq![MINUS]
    } else {
        e
    };
    let digits = digits_of(magnitude(n), radix);
    if radix != 10 {
        lemma_literal_head(m, n, radix);
        let p = run(m, sign + radix_prefix(radix)).0;
        lemma_run_concat(m, sign + radix_prefix(radix), digits);
        lemma_digits_accumulate(p, magnitude(n), radix);
        assert(e + e =~= e);
    } else if n == 0 {
        lemma_run_push(m, e, DIGIT_0);
        assert(literal(n, radix) =~= e.push(DIGIT_0));
    } else if n > 0 {
        assert(literal(n, radix) =~= digits);
        lemma_decimal_lead(m, magnitude(n));
    } else {
        lemma_run_push(m, e, MINUS);
        assert(e.push(MINUS) =~= sign);
        assert(literal(n, radix) =~= sign + digits);
        lemma_run_concat(m, sign, digits);
        lemma_decimal_lead(run(m, sign).0, magnitude(n));
        assert(e + e =~= e);
    }
}

/// Numeric literals scan back to their value: for each radix, the literal
/// form of any integer in [-(2^31 - 1), 2^31 - 1], followed by a space or a
/// carriage return, scans from the start of a token to exactly one number
/// token that holds that integer.
pub proof fn lemma_number_literal_round_trip(m: ScanModel, n: int, radix: nat, term: u8)
    requires
        m.state == ScannerState::Initial,
        valid_radix(radix),
        -i32::MAX <= n <= i32::MAX,
        term == SPACE || term == CR,
    ensures
        scans_to_number(
            m,
            literal(n, radix).push(term),
            n,
            if term == SPACE {
                ScannerState::Initial
            } else {
                ScannerState::Finish
            },
        ),
{
    lemma_literal_body(m, n, radix);
    lemma_run_push(m, literal(n, radix), term);
}


/// A leading zero does not make a literal octal: `0` followed by the
/// decimal digits of `n` scans to `n`.
pub proof fn lemma_leading_zero_is_decimal(m: ScanModel, n: nat, term: u8)
    requires
        m.state == ScannerState::Initial,
        n <= i32::MAX,
        term == SPACE || term == CR,
    ensures
        scans_to_number(
            m,
            (seq![DIGIT_0] + digits_of(n, 10)).push(term),
            n as int,
            if term == SPACE {
                ScannerState::Initial
            } else {
                ScannerState::Finish
            },
        ),
{
    let e = Seq::<u8>::empty();
    lemma_run_push(m, e, DIGIT_0);
    assert(e.push(DIGIT_0) =~= seq![DIGIT_0]);
    let z = run(m, seq![DIGIT_0]).0;
    lemma_run_concat(m, seq![DIGIT_0], digits_of(n, 10));
    if n == 0 {
        lemma_run_push(z, e, DIGIT_0);
        assert(e.push(DIGIT_0) =~= digits_of(n, 10));
    } else {
        lemma_decimal_lead(z, n);
    }
    assert(e + e =~= e);
    lemma_run_push(m, seq![DIGIT_0] + digits_of(n, 10), term);
}

/// Digits whose value exceeds the 32-bit signed range make the scanner
/// emit an invalid token, before any other token.
proof fn lemma_digits_overflow(p: ScanModel, n: nat, radix: nat)
    requires
        valid_radix(radix),
        n > i32::MAX,
        (p.state == number_state(radix) && p.number == 0) || (radix == 10 && (p.state
            == ScannerState::Initial || (p.state == ScannerState::NumberWithSign && p.number
            == 0))),
    ensures
        run(p, digits_of(n, radix)).1.len() >= 1,
        run(p, digits_of(n, radix)).1[0].0 == Token::Invalid,
    decreases n,
{
    lemma_digits_shape(n, radix);
    let q = n / radix;
    let d = n % radix;
    lemma_digit_char(d, radix);
    lemma_run_push(p, digits_of(q, radix), digit_char(d));
    if q > i32::MAX {
        lemma_digits_overflow(p, q, radix);
    } else {
        if p.state == number_state(radix) {
            lemma_digits_accumulate(p, q, radix);
        } else {
            lemma_decimal_lead(p, q);
        }
        assert(q * radix + d > i32::MAX);
    }
}

/// A literal whose magnitude exceeds 2^31 - 1 fails to scan: the first
/// token that comes out is an invalid one, never a wrapped or truncated
/// number.
pub proof fn lemma_overflowing_literal_is_invalid(m: ScanModel, n: int, radix: nat)
    requires
        m.state == ScannerState::Initial,
        valid_radix(radix),
        n > i32::MAX || n < -i32::MAX,
    ensures
        run(m, literal(n, radix)).1.len() >= 1,
        run(m, literal(n, radix)).1[0].0 == Token::Invalid,
{
    let e = Seq::<u8>::empty();
    let sign = if n < 0 {
        seq![MINUS]
    } else {
        e
    };
    let digits = digits_of(magnitude(n), radix);
    if radix != 10 {
        lemma_literal_head(m, n, radix);
        let p = run(m, sign + radix_prefix(radix)).0;
        lemma_run_concat(m, sign + radix_prefix(radix), digits);
        lemma_digits_overflow(p, magnitude(n), radix);
    } else if n > 0 {
        assert(literal(n, radix) =~= digits);
        lemma_digits_overflow(m, magnitude(n), radix);
    } else {
        lemma_run_push(m, e, MINUS);
        assert(e.push(MINUS) =~= sign);
        assert(literal(n, radix) =~= sign + digits);
        lemma_run_concat(m, sign, digits);
        lemma_digits_overflow(run(m, sign).0, magnitude(n), radix);
    }
}


/// The value of `c` as a digit of `radix`, zero if it is none.
pub open spec fn digit_of(c: u8, radix: nat) -> int {
    match digit_value(c, radix as int) {
        Some(d) => d,
        None => 0,
    }
}

/// Every byte of `ds` is a digit of `radix` (hex digits in either case).
pub open spec fn all_digits(ds: Seq<u8>, radix: nat) -> bool {
    forall|i: int| 0 <= i < ds.len() ==> (#[trigger] digit_value(ds[i], radix as int)) is Some
}

/// The value of the digit string `ds` in `radix`, most significant first.
pub open spec fn digits_value(ds: Seq<u8>, radix: nat) -> int
    decreases ds.len(),
{
    if ds.len() == 0 {
        0
    } else {
        digits_value(ds.drop_last(), radix) * radix + digit_of(ds.last(), radix)
    }
}

/// The radix that a marker announces: none (decimal), `0d`, `0b`, `0o`
/// or `0x`.
pub open spec fn marker_radix(marker: Seq<u8>) -> Option<nat> {
    if marker.len() == 0 {
        Some(10)
    } else if marker == seq![DIGIT_0, LOWER_D] {
        Some(10)
    } else if marker == seq![DIGIT_0, LOWER_B] {
        Some(2)
    } else if marker == seq![DIGIT_0, LOWER_O] {
        Some(8)
    } else if marker == seq![DIGIT_0, LOWER_X] {
        Some(16)
    } else {
        None
    }
}

/// A number as it may be written: an optional `-`, a radix marker, then
/// digits of that radix.
pub open spec fn written_number(negative: bool, marker: Seq<u8>, ds: Seq<u8>) -> Seq<u8> {
    let sign = if negative {
        seq![MINUS]
    } else {
        Seq::empty()
    };
    sign + marker + ds
}

/// Where digits of `radix` may start accumulating from zero.
pub open spec fn digits_start(p: ScanModel, radix: nat) -> bool {
    ||| p.state == number_state(radix) && p.number == 0
    ||| radix == 10 && p.state == ScannerState::Initial
    ||| radix == 10 && (p.state == ScannerState::NumberWithSign || p.state
        == ScannerState::AnyNumber) && p.number == 0
}

proof fn lemma_digits_value_nonneg(ds: Seq<u8>, radix: nat)
    requires
        valid_radix(radix),
        all_digits(ds, radix),
    ensures
        0 <= digits_value(ds, radix),
        ds.len() > 0 ==> digits_value(ds.drop_last(), radix) <= digits_value(ds, radix),
    decreases ds.len(),
{
    if ds.len() > 0 {
        assert(all_digits(ds.drop_last(), radix)) by {
            assert forall|i: int| 0 <= i < ds.drop_last().len() implies (#[trigger] digit_value(
                ds.drop_last()[i],
                radix as int,
            )) is Some by {
                assert(digit_value(ds[i], radix as int) is Some);
            }
        }
        lemma_digits_value_nonneg(ds.drop_last(), radix);
        assert(digit_value(ds[ds.len() - 1], radix as int) is Some);
        let v0 = digits_value(ds.drop_last(), radix);
        let d = digit_of(ds.last(), radix);
        assert(v0 <= v0 * radix + d) by (nonlinear_arith)
            requires
                v0 >= 0,
                radix >= 2,
                d >= 0,
        ;
    }
}

/// From a start, a non-empty digit string accumulates to its value, and no
/// token comes out.
proof fn lemma_digit_run(p: ScanModel, ds: Seq<u8>, radix: nat)
    requires
        valid_radix(radix),
        digits_start(p, radix),
        ds.len() >= 1,
        all_digits(ds, radix),
        digits_value(ds, radix) <= i32::MAX,
    ensures
        run(p, ds).1 == Seq::<(Token, ScanModel)>::empty(),
        run(p, ds).0.number == digits_value(ds, radix),
        run(p, ds).0.state == number_state(radix) || run(p, ds).0.state
            == ScannerState::AnyNumber,
        run(p, ds).0.state == ScannerState::AnyNumber ==> radix == 10 && run(p, ds).0.number == 0,
        run(p, ds).0.negative == if p.state == ScannerState::Initial {
            false
        } else {
            p.negative
        },
        run(p, ds).0.text == p.text,
    decreases ds.len(),
{
    lemma_digits_value_nonneg(ds, radix);
    let w = ds.drop_last();
    let c = ds.last();
    assert(digit_value(ds[ds.len() - 1], radix as int) is Some);
    lemma_run_push(p, w, c);
    assert(w.push(c) =~= ds);
    if ds.len() == 1 {
        assert(w =~= Seq::<u8>::empty());
    } else {
        assert(all_digits(w, radix)) by {
            assert forall|i: int| 0 <= i < w.len() implies (#[trigger] digit_value(
                w[i],
                radix as int,
            )) is Some by {
                assert(digit_value(ds[i], radix as int) is Some);
            }
        }
        lemma_digit_run(p, w, radix);
        let v0 = digits_value(w, radix);
        let d = digit_of(c, radix);
        assert(0 <= v0 * radix <= v0 * radix + d) by (nonlinear_arith)
            requires
                v0 >= 0,
                radix >= 2,
                d >= 0,
        ;
    }
}

/// Running over the sign and the marker of a written number.
proof fn lemma_written_head(m: ScanModel, negative: bool, marker: Seq<u8>, radix: nat)
    requires
        m.state == ScannerState::Initial,
        marker_radix(marker) == Some(radix),
    ensures
        ({
            let sign = if negative {
                seq![MINUS]
            } else {
                Seq::empty()
            };
            let r = run(m, sign + marker);
            &&& r.1 == Seq::<(Token, ScanModel)>::empty()
            &&& digits_start(r.0, radix)
            &&& r.0.text == m.text
            &&& (r.0.state == ScannerState::Initial || r.0.negative == negative)
            &&& (r.0.state == ScannerState::Initial ==> !negative)
        }),
{
    let e = Seq::<u8>::empty();
    let sign = if negative {
        seq![MINUS]
    } else {
        e
    };
    lemma_run_push(m, e, MINUS);
    assert(e.push(MINUS) =~= seq![MINUS]);
    let s0 = run(m, sign).0;
    assert(sign + e =~= sign);
    if marker.len() != 0 {
        let l = marker[1];
        lemma_run_push(m, sign, DIGIT_0);
        lemma_run_push(m, sign.push(DIGIT_0), l);
        assert(sign + marker =~= sign.push(DIGIT_0).push(l));
    }
}

proof fn lemma_end_after_digits(q: ScanModel, radix: nat, term: u8)
    requires
        valid_radix(radix),
        q.state == number_state(radix) || q.state == ScannerState::AnyNumber,
        0 <= q.number,
        term == SPACE || term == CR,
    ensures
        step(q, term) == ({
            let v = if q.negative {
                -q.number
            } else {
                q.number as int
            };
            let next = if term == SPACE {
                ScannerState::Initial
            } else {
                ScannerState::Finish
            };
            (ScanModel { state: next, number: v as i32, ..q }, Some(Token::Number))
        }),
{
}

/// Numbers read back as written: for each radix, a sign or none, the radix
/// marker (or none, for decimal), and any digits of that radix, leading
/// zeros and either case of hex digits included, whose value is at most
/// 2^31 - 1, followed by a space or a carriage return, scan from the start
/// of a token to exactly one number token that holds the signed value.
pub proof fn lemma_written_number_round_trip(
    m: ScanModel,
    negative: bool,
    marker: Seq<u8>,
    ds: Seq<u8>,
    radix: nat,
    term: u8,
)
    requires
        m.state == ScannerState::Initial,
        marker_radix(marker) == Some(radix),
        ds.len() >= 1,
        all_digits(ds, radix),
        digits_value(ds, radix) <= i32::MAX,
        term == SPACE || term == CR,
    ensures
        scans_to_number(
            m,
            written_number(negative, marker, ds).push(term),
            if negative {
                -digits_value(ds, radix)
            } else {
                digits_value(ds, radix)
            },
            if term == SPACE {
                ScannerState::Initial
            } else {
                ScannerState::Finish
            },
        ),
{
    let sign = if negative {
        seq![MINUS]
    } else {
        Seq::<u8>::empty()
    };
    lemma_written_head(m, negative, marker, radix);
    let p = run(m, sign + marker).0;
    lemma_digit_run(p, ds, radix);
    lemma_run_concat(m, sign + marker, ds);
    assert(Seq::<(Token, ScanModel)>::empty() + Seq::<(Token, ScanModel)>::empty() =~= Seq::<
        (Token, ScanModel),
    >::empty());
    assert(written_number(negative, marker, ds) == sign + marker + ds);
    lemma_run_push(m, written_number(negative, marker, ds), term);
    lemma_digits_value_nonneg(ds, radix);
    lemma_end_after_digits(run(m, written_number(negative, marker, ds)).0, radix, term);
}

} // verus!
