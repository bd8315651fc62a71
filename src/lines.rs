use vstd::prelude::*;

use crate::literals::{
    all_digits, digits_value, lemma_run_concat, lemma_run_push, lemma_written_number_round_trip,
    marker_radix, scans_to_number, written_number,
};
use crate::parser::{
    address_of, byte_of, device_of, device_text, keyword_read_byte, outcome_matches, keyword_read_data, keyword_set_device, keyword_write_byte,
    keyword_write_page, verdict, Command, DeviceName, Event, Verdict,
};
use crate::scanner::{
    is_identifier_char, is_letter, is_printable, run, step, ScanModel,
    ScannerState, Token, SCANNED_STRING_CAPACITY, BACKSLASH, CR, LF, QUOTE, SPACE,
};

verus! {

/// An identifier: a letter, then letters, digits or underscores, short
/// enough for the buffer.
pub open spec fn is_word(t: Seq<u8>) -> bool {
    &&& 1 <= t.len() <= SCANNED_STRING_CAPACITY
    &&& is_letter(t[0])
    &&& forall|i: int| 0 <= i < t.len() ==> is_identifier_char(#[trigger] t[i])
}

/// A number argument as written on a line: an optional `-`, a radix
/// marker, then digits.
pub struct WrittenNumber {
    pub negative: bool,
    pub marker: Seq<u8>,
    pub digits: Seq<u8>,
}

pub open spec fn written_radix(w: WrittenNumber) -> nat {
    match marker_radix(w.marker) {
        Some(r) => r,
        None => 10,
    }
}

/// A number that the scanner reads: a known marker, at least one digit of
/// its radix, and a magnitude of at most 2^31 - 1.
pub open spec fn well_written(w: WrittenNumber) -> bool {
    &&& marker_radix(w.marker) is Some
    &&& w.digits.len() >= 1
    &&& all_digits(w.digits, written_radix(w))
    &&& digits_value(w.digits, written_radix(w)) <= i32::MAX
}

pub open spec fn written_text(w: WrittenNumber) -> Seq<u8> {
    written_number(w.negative, w.marker, w.digits)
}

pub open spec fn written_value(w: WrittenNumber) -> int {
    if w.negative {
        -digits_value(w.digits, written_radix(w))
    } else {
        digits_value(w.digits, written_radix(w))
    }
}

/// The text of one command line: the keyword, each argument after one
/// space, then CR LF. Number arguments are written as `x`, then `y`.
pub open spec fn command_line(c: Command, x: WrittenNumber, y: WrittenNumber) -> Seq<u8> {
    match c {
        Command::ReadByte(_) => keyword_read_byte().push(SPACE) + written_text(x).push(CR)
            + seq![LF],
        Command::WriteByte(_, _) => keyword_write_byte().push(SPACE) + written_text(x).push(SPACE)
            + written_text(y).push(CR) + seq![LF],
        Command::ReadData(_, _) => keyword_read_data().push(SPACE) + written_text(x).push(SPACE)
            + written_text(y).push(CR) + seq![LF],
        Command::WritePage(_) => keyword_write_page().push(SPACE) + written_text(x).push(CR)
            + seq![LF],
        Command::SetDevice(d) => keyword_set_device().push(SPACE) + device_text(d).push(CR) + seq![LF],
    }
}

/// The written numbers are well written and stand for the command's
/// arguments, in range: addresses and lengths in [0, 2^31 - 1] (the
/// scanner's numbers are 32-bit signed), a byte as itself or, from 128 up,
/// as its negative two's-complement reading, a page in [0, 1023].
pub open spec fn writes_arguments(c: Command, x: WrittenNumber, y: WrittenNumber) -> bool {
    match c {
        Command::ReadByte(a) => well_written(x) && written_value(x) == a,
        Command::WriteByte(a, b) => well_written(x) && written_value(x) == a && well_written(y)
            && (written_value(y) == b || (b >= 128 && written_value(y) == b - 256)),
        Command::ReadData(a, n) => well_written(x) && written_value(x) == a && well_written(y)
            && written_value(y) == n,
        Command::WritePage(p) => well_written(x) && written_value(x) == p && p <= 1023,
        Command::SetDevice(_) => true,
    }
}

proof fn lemma_written_token(m: ScanModel, w: WrittenNumber, term: u8)
    requires
        m.state == ScannerState::Initial,
        well_written(w),
        term == SPACE || term == CR,
    ensures
        scans_to_number(
            m,
            written_text(w).push(term),
            written_value(w),
            if term == SPACE {
                ScannerState::Initial
            } else {
                ScannerState::Finish
            },
        ),
{
    lemma_written_number_round_trip(m, w.negative, w.marker, w.digits, written_radix(w), term);
}

proof fn lemma_word(m: ScanModel, t: Seq<u8>)
    requires
        m.state == ScannerState::Initial,
        is_word(t),
    ensures
        run(m, t) == (
            ScanModel { state: ScannerState::Identifier, text: t, ..m },
            Seq::<Event>::empty(),
        ),
    decreases t.len(),
{
    if t.len() == 1 {
        lemma_run_push(m, Seq::empty(), t[0]);
        assert(Seq::<u8>::empty().push(t[0]) =~= t);
        assert(seq![t[0]] =~= t);
    } else {
        assert(is_identifier_char(t[t.len() - 1]));
        assert forall|i: int| 0 <= i < t.drop_last().len() implies is_identifier_char(
            #[trigger] t.drop_last()[i],
        ) by {
            assert(is_identifier_char(t[i]));
        }
        lemma_word(m, t.drop_last());
        lemma_run_push(m, t.drop_last(), t.last());
        assert(t.drop_last().push(t.last()) =~= t);
    }
}

/// A word followed by a space or a carriage return is one identifier token.
proof fn lemma_word_token(m: ScanModel, t: Seq<u8>, term: u8)
    requires
        m.state == ScannerState::Initial,
        is_word(t),
        term == SPACE || term == CR,
    ensures
        run(m, t.push(term)).0 == (ScanModel {
            state: if term == SPACE {
                ScannerState::Initial
            } else {
                ScannerState::Finish
            },
            text: t,
            ..m
        }),
        run(m, t.push(term)).1 == seq![(Token::Identifier, run(m, t.push(term)).0)],
{
    lemma_word(m, t);
    lemma_run_push(m, t, term);
    assert(Seq::<Event>::empty().push((Token::Identifier, run(m, t.push(term)).0)) =~= seq![
        (Token::Identifier, run(m, t.push(term)).0),
    ]);
}

proof fn lemma_line_end(m: ScanModel)
    requires
        m.state == ScannerState::Finish,
    ensures
        run(m, seq![LF]).1 == seq![(Token::Finish, ScanModel { state: ScannerState::Initial, ..m })],
        run(m, seq![LF]).0 == (ScanModel { state: ScannerState::Initial, ..m }),
{
    lemma_run_push(m, Seq::empty(), LF);
    assert(Seq::<u8>::empty().push(LF) =~= seq![LF]);
    assert(Seq::<Event>::empty().push((Token::Finish, ScanModel { state: ScannerState::Initial, ..m }))
        =~= seq![(Token::Finish, ScanModel { state: ScannerState::Initial, ..m })]);
}

proof fn lemma_device_words(d: DeviceName)
    ensures
        is_word(device_text(d)),
{
    let t = device_text(d);
    assert forall|i: int| 0 <= i < t.len() implies is_identifier_char(#[trigger] t[i]) by {}
}


/// Tokens of a line with one argument: the keyword, the argument, the end.
proof fn lemma_line_one_arg(
    m0: ScanModel,
    kw: Seq<u8>,
    arg: Seq<u8>,
    arg_is_number: bool,
    x: WrittenNumber,
)
    requires
        m0.state == ScannerState::Initial,
        is_word(kw),
        arg_is_number ==> well_written(x) && arg == written_text(x),
        !arg_is_number ==> is_word(arg),
    ensures
        ({
            let line = kw.push(SPACE) + arg.push(CR) + seq![LF];
            let ts = run(m0, line).1;
            &&& ts.len() == 3
            &&& run(m0, line.drop_last()).1 == ts.drop_last()
            &&& run(m0, line).0.state == ScannerState::Initial
            &&& ts.take(0) =~= Seq::<Event>::empty()
            &&& ts.take(1) =~= seq![ts[0]]
            &&& ts[0].0 == Token::Identifier && ts[0].1.text == kw
            &&& arg_is_number ==> ts[1].0 == Token::Number && ts[1].1.number == written_value(x)
            &&& !arg_is_number ==> ts[1].0 == Token::Identifier && ts[1].1.text == arg
            &&& ts[2].0 == Token::Finish
            &&& ts.drop_first() =~= seq![ts[1], ts[2]]
            &&& seq![ts[1], ts[2]].drop_first() =~= seq![ts[2]]
            &&& ts.drop_last() =~= seq![ts[0], ts[1]]
            &&& seq![ts[0], ts[1]].drop_first() =~= seq![ts[1]]
            &&& seq![ts[1]].drop_first() =~= Seq::<Event>::empty()
        }),
{
    let a = kw.push(SPACE);
    let b = arg.push(CR);
    let c = seq![LF];
    assert((a + b + c).drop_last() =~= a + b);
    lemma_word_token(m0, kw, SPACE);
    let m1 = run(m0, a).0;
    if arg_is_number {
        lemma_written_token(m1, x, CR);
    } else {
        lemma_word_token(m1, arg, CR);
    }
    lemma_run_concat(m0, a, b);
    let m2 = run(m0, a + b).0;
    lemma_line_end(m2);
    lemma_run_concat(m0, a + b, c);
    let ts = run(m0, a + b + c).1;
    assert(ts.len() == 3);
}

/// Tokens of a line with two number arguments.
proof fn lemma_line_two_args(m0: ScanModel, kw: Seq<u8>, x: WrittenNumber, y: WrittenNumber)
    requires
        m0.state == ScannerState::Initial,
        is_word(kw),
        well_written(x),
        well_written(y),
    ensures
        ({
            let line = kw.push(SPACE) + written_text(x).push(SPACE) + written_text(y).push(CR)
                + seq![LF];
            let ts = run(m0, line).1;
            &&& ts.len() == 4
            &&& run(m0, line.drop_last()).1 == ts.drop_last()
            &&& run(m0, line).0.state == ScannerState::Initial
            &&& ts.take(0) =~= Seq::<Event>::empty()
            &&& ts.take(1) =~= seq![ts[0]]
            &&& ts.take(2) =~= seq![ts[0], ts[1]]
            &&& ts[0].0 == Token::Identifier && ts[0].1.text == kw
            &&& ts[1].0 == Token::Number && ts[1].1.number == written_value(x)
            &&& ts[2].0 == Token::Number && ts[2].1.number == written_value(y)
            &&& ts[3].0 == Token::Finish
            &&& ts.drop_first() =~= seq![ts[1], ts[2], ts[3]]
            &&& seq![ts[1], ts[2], ts[3]].drop_first() =~= seq![ts[2], ts[3]]
            &&& seq![ts[2], ts[3]].drop_first() =~= seq![ts[3]]
            &&& ts.drop_last() =~= seq![ts[0], ts[1], ts[2]]
            &&& seq![ts[0], ts[1], ts[2]].drop_first() =~= seq![ts[1], ts[2]]
            &&& seq![ts[1], ts[2]].drop_first() =~= seq![ts[2]]
            &&& seq![ts[2]].drop_first() =~= Seq::<Event>::empty()
        }),
{
    let a = kw.push(SPACE);
    let b = written_text(x).push(SPACE);
    let c = written_text(y).push(CR);
    let d = seq![LF];
    assert((a + b + c + d).drop_last() =~= a + b + c);
    lemma_word_token(m0, kw, SPACE);
    let m1 = run(m0, a).0;
    lemma_written_token(m1, x, SPACE);
    lemma_run_concat(m0, a, b);
    let m2 = run(m0, a + b).0;
    lemma_written_token(m2, y, CR);
    lemma_run_concat(m0, a + b, c);
    let m3 = run(m0, a + b + c).0;
    lemma_line_end(m3);
    lemma_run_concat(m0, a + b + c, d);
    let ts = run(m0, a + b + c + d).1;
    assert(ts.len() == 4);
}

/// Every well-formed command line parses to its command: a line with
/// arguments in range, its numbers written with or without a sign, in any
/// radix, gives tokens that the grammar accepts as exactly that command,
/// and it is the last token (the line's end) that decides.
pub proof fn lemma_command_line_parses(m: ScanModel, c: Command, x: WrittenNumber, y: WrittenNumber)
    requires
        m.state == ScannerState::Initial,
        writes_arguments(c, x, y),
    ensures
        ({
            let line = command_line(c, x, y);
            let ts = run(m, line).1;
            &&& verdict(ts) == Verdict::Accepted(c)
            &&& verdict(ts.drop_last()) == Verdict::Pending
            &&& forall|j: int| 0 <= j < ts.len() ==> verdict(#[trigger] ts.take(j)) == Verdict::Pending
            &&& run(m, line.drop_last()).1 == ts.drop_last()
            &&& run(m, line).0.state == ScannerState::Initial
        }),
{
    let rb = keyword_read_byte();
    let wb = keyword_write_byte();
    let rd = keyword_read_data();
    let wp = keyword_write_page();
    let sd = keyword_set_device();
    assert(rb[0] != wb[0] && rb[1] != rd[1] && rb[0] != wp[0] && rb[0] != sd[0]);
    assert(wb[1] != rd[1] && wb[1] != wp[1] && wb[0] != sd[0]);
    assert(rd[0] != wp[0] && rd[0] != sd[0] && wp[0] != sd[0]);
    assert(is_word(rb) && is_word(wb) && is_word(rd) && is_word(wp) && is_word(sd)) by {
        assert forall|i: int| 0 <= i < rb.len() implies is_identifier_char(#[trigger] rb[i]) by {}
        assert forall|i: int| 0 <= i < wb.len() implies is_identifier_char(#[trigger] wb[i]) by {}
        assert forall|i: int| 0 <= i < rd.len() implies is_identifier_char(#[trigger] rd[i]) by {}
        assert forall|i: int| 0 <= i < wp.len() implies is_identifier_char(#[trigger] wp[i]) by {}
        assert forall|i: int| 0 <= i < sd.len() implies is_identifier_char(#[trigger] sd[i]) by {}
    }
    match c {
        Command::ReadByte(a) => {
            lemma_line_one_arg(m, rb, written_text(x), true, x);
        },
        Command::WriteByte(a, b) => {
            lemma_line_two_args(m, wb, x, y);
        },
        Command::ReadData(a, n) => {
            lemma_line_two_args(m, rd, x, y);
        },
        Command::WritePage(p) => {
            lemma_line_one_arg(m, wp, written_text(x), true, x);
        },
        Command::SetDevice(d) => {
            lemma_device_words(d);
            lemma_line_one_arg(m, sd, device_text(d), false, x);
            let t = device_text(d);
            assert(t[0] == 0x78u8);
            assert(t != device_text(DeviceName::X00) ==> d != DeviceName::X00);
        },
    }
}


/// An identifier keyword that names no command is rejected at once.
pub proof fn lemma_unknown_keyword_rejected(ts: Seq<Event>)
    requires
        ts.len() >= 1,
        ts[0].0 == Token::Identifier,
        ts[0].1.text != keyword_read_byte(),
        ts[0].1.text != keyword_write_byte(),
        ts[0].1.text != keyword_read_data(),
        ts[0].1.text != keyword_write_page(),
        ts[0].1.text != keyword_set_device(),
    ensures
        verdict(ts) == Verdict::Rejected,
{
}

/// After `sd`, a token that names no device is rejected.
pub proof fn lemma_unknown_device_rejected(ts: Seq<Event>)
    requires
        ts.len() >= 2,
        ts[0].0 == Token::Identifier,
        ts[0].1.text == keyword_set_device(),
        device_of(ts[1]) is None,
    ensures
        verdict(ts) == Verdict::Rejected,
{
    assert(ts.drop_first()[0] == ts[1]);
}

/// Numbers outside an argument's range are rejected at the argument: a
/// negative address, a page above 1023, a byte outside [-128, 255].
pub proof fn lemma_out_of_range_rejected(ts: Seq<Event>)
    requires
        ts.len() >= 2,
        ts[0].0 == Token::Identifier,
        ts[1].0 == Token::Number,
        (ts[0].1.text == keyword_read_byte() && ts[1].1.number < 0) || (ts[0].1.text
            == keyword_write_page() && (ts[1].1.number < 0 || ts[1].1.number > 1023)),
    ensures
        verdict(ts) == Verdict::Rejected,
{
    assert(ts.drop_first()[0] == ts[1]);
    assert(keyword_read_byte()[0] != keyword_write_page()[0]);
}

/// A byte argument outside [-128, 255] is rejected.
pub proof fn lemma_byte_out_of_range_rejected(ts: Seq<Event>)
    requires
        ts.len() >= 3,
        ts[0].0 == Token::Identifier,
        ts[0].1.text == keyword_write_byte(),
        address_of(ts[1]) is Some,
        ts[2].0 == Token::Number,
        ts[2].1.number < -128 || ts[2].1.number > 255,
    ensures
        verdict(ts) == Verdict::Rejected,
{
    assert(ts.drop_first()[0] == ts[1]);
    assert(ts.drop_first().drop_first()[0] == ts[2]);
    assert(byte_of(ts[2]) is None);
    assert(keyword_write_byte()[0] != keyword_read_byte()[0]);
}

/// An invalid token is never accepted, nor waited past: where the grammar
/// awaits a token and the scanner reports an invalid byte, the line is
/// rejected.
pub proof fn lemma_invalid_token_rejected(ts: Seq<Event>)
    requires
        ts.len() >= 1,
        verdict(ts.drop_last()) == Verdict::Pending,
        ts.last().0 == Token::Invalid,
    ensures
        verdict(ts) == Verdict::Rejected,
{
    let p = ts.drop_last();
    if ts.len() >= 2 {
        assert(p[0] == ts[0]);
        assert(p.drop_first() =~= ts.drop_first().drop_last());
        let r = ts.drop_first();
        if r.len() >= 2 {
            assert(p.drop_first()[0] == r[0]);
            assert(p.drop_first().drop_first() =~= r.drop_first().drop_last());
            if r.len() >= 3 {
                assert(p.drop_first().drop_first()[0] == r.drop_first()[0]);
                assert(p.drop_first().drop_first().drop_first() =~= r.drop_first().drop_first().drop_last());
            }
        }
    }
}

/// A carriage return ends a line only together with a line feed: the line
/// feed completes the end-of-line token and returns the scanner to its
/// initial state; any other byte after it is invalid.
pub proof fn lemma_lone_carriage_return_invalid(m: ScanModel, c: u8)
    requires
        m.state == ScannerState::Finish,
    ensures
        c == LF ==> step(m, c) == (
            ScanModel { state: ScannerState::Initial, ..m },
            Some(Token::Finish),
        ),
        c != LF ==> step(m, c) == (m, Some(Token::Invalid)),
{
}

/// An identifier longer than the buffer holds fails on the byte that does
/// not fit: it comes out as an invalid token, not as a truncated one.
pub proof fn lemma_identifier_overflow_invalid(m: ScanModel, t: Seq<u8>)
    requires
        m.state == ScannerState::Initial,
        t.len() == SCANNED_STRING_CAPACITY + 1,
        is_letter(t[0]),
        forall|i: int| 0 <= i < t.len() ==> is_identifier_char(#[trigger] t[i]),
    ensures
        run(m, t).1 == seq![(Token::Invalid, run(m, t).0)],
{
    let w = t.drop_last();
    assert forall|i: int| 0 <= i < w.len() implies is_identifier_char(#[trigger] w[i]) by {
        assert(is_identifier_char(t[i]));
    }
    assert(is_identifier_char(t[t.len() - 1]));
    lemma_word(m, w);
    lemma_run_push(m, w, t.last());
    assert(w.push(t.last()) =~= t);
    assert(Seq::<Event>::empty().push((Token::Invalid, run(m, t).0)) =~= seq![
        (Token::Invalid, run(m, t).0),
    ]);
}


/// A byte that stands for itself inside a string literal.
pub open spec fn is_plain_string_char(c: u8) -> bool {
    is_printable(c) && c != QUOTE && c != BACKSLASH
}

proof fn lemma_string_fill(m: ScanModel, t: Seq<u8>)
    requires
        m.state == ScannerState::Initial,
        t.len() <= SCANNED_STRING_CAPACITY,
        forall|i: int| 0 <= i < t.len() ==> is_plain_string_char(#[trigger] t[i]),
    ensures
        run(m, seq![QUOTE] + t) == (
            ScanModel { state: ScannerState::String, text: t, ..m },
            Seq::<Event>::empty(),
        ),
    decreases t.len(),
{
    if t.len() == 0 {
        lemma_run_push(m, Seq::empty(), QUOTE);
        assert(Seq::<u8>::empty().push(QUOTE) =~= seq![QUOTE] + t);
        assert(t =~= Seq::<u8>::empty());
    } else {
        let w = t.drop_last();
        assert forall|i: int| 0 <= i < w.len() implies is_plain_string_char(#[trigger] w[i]) by {
            assert(is_plain_string_char(t[i]));
        }
        assert(is_plain_string_char(t[t.len() - 1]));
        lemma_string_fill(m, w);
        lemma_run_push(m, seq![QUOTE] + w, t.last());
        assert((seq![QUOTE] + w).push(t.last()) =~= seq![QUOTE] + t);
        assert(w.push(t.last()) =~= t);
    }
}

/// A string longer than the buffer holds fails on the byte that does not
/// fit: it comes out as an invalid token, not as a truncated string.
pub proof fn lemma_string_overflow_invalid(m: ScanModel, t: Seq<u8>)
    requires
        m.state == ScannerState::Initial,
        t.len() == SCANNED_STRING_CAPACITY + 1,
        forall|i: int| 0 <= i < t.len() ==> is_plain_string_char(#[trigger] t[i]),
    ensures
        run(m, seq![QUOTE] + t).1 == seq![(Token::Invalid, run(m, seq![QUOTE] + t).0)],
{
    let w = t.drop_last();
    assert forall|i: int| 0 <= i < w.len() implies is_plain_string_char(#[trigger] w[i]) by {
        assert(is_plain_string_char(t[i]));
    }
    assert(is_plain_string_char(t[t.len() - 1]));
    lemma_string_fill(m, w);
    lemma_run_push(m, seq![QUOTE] + w, t.last());
    assert((seq![QUOTE] + w).push(t.last()) =~= seq![QUOTE] + t);
    let r = run(m, seq![QUOTE] + t);
    assert(Seq::<Event>::empty().push((Token::Invalid, r.0)) =~= seq![(Token::Invalid, r.0)]);
}


/// Every proper prefix of a well-formed line leaves the grammar waiting.
pub proof fn lemma_line_prefix_pending(
    m: ScanModel,
    c: Command,
    x: WrittenNumber,
    y: WrittenNumber,
    k: int,
)
    requires
        m.state == ScannerState::Initial,
        writes_arguments(c, x, y),
        0 <= k < command_line(c, x, y).len(),
    ensures
        verdict(run(m, command_line(c, x, y).take(k)).1) == Verdict::Pending,
{
    let line = command_line(c, x, y);
    lemma_command_line_parses(m, c, x, y);
    let ts = run(m, line).1;
    let dl = line.drop_last();
    assert(dl =~= line.take(k) + dl.skip(k));
    lemma_run_concat(m, line.take(k), dl.skip(k));
    let p = run(m, line.take(k)).1;
    assert(p =~= ts.take(p.len() as int)) by {
        assert forall|i: int| 0 <= i < p.len() implies p[i] == ts[i] by {
            assert(run(m, dl).1[i] == p[i]);
            assert(ts.drop_last()[i] == ts[i]);
        }
    }
    assert(verdict(ts.take(p.len() as int)) == Verdict::Pending);
}

/// Tokens after a decided command change nothing.
pub proof fn lemma_verdict_extends(ts: Seq<Event>, more: Seq<Event>)
    requires
        !(verdict(ts) is Pending),
    ensures
        verdict(ts + more) == verdict(ts),
{
    let u = ts + more;
    assert(u[0] == ts[0]);
    assert(u.drop_first() =~= ts.drop_first() + more);
    if ts.len() >= 2 {
        let a = ts.drop_first();
        assert(u.drop_first()[0] == a[0]);
        assert(u.drop_first().drop_first() =~= a.drop_first() + more);
        if ts.len() >= 3 {
            let b = a.drop_first();
            assert(u.drop_first().drop_first()[0] == b[0]);
            assert(u.drop_first().drop_first().drop_first() =~= b.drop_first() + more);
            if ts.len() >= 4 {
                assert(u.drop_first().drop_first().drop_first()[0] == b.drop_first()[0]);
            }
        }
    }
}

/// A parse that starts where a token may start, over a stream that begins
/// with a well-formed line, and that keeps the parser's guarantees (the
/// result agrees with the grammar on the tokens of the bytes read, it
/// stops at the deciding token, it fails while waiting only once the
/// stream is used up, and a decision falls on the last byte read) returns
/// that line's command after reading exactly that line.
pub proof fn lemma_line_outcome(
    m: ScanModel,
    c: Command,
    x: WrittenNumber,
    y: WrittenNumber,
    rest: Seq<u8>,
    nb: Seq<u8>,
    r: Result<Command, ()>,
)
    requires
        m.state == ScannerState::Initial,
        writes_arguments(c, x, y),
        nb.is_prefix_of(command_line(c, x, y) + rest),
        outcome_matches(r, verdict(run(m, nb).1)),
        run(m, nb).1.len() > 0 ==> verdict(run(m, nb).1.drop_last()) == Verdict::Pending,
        (r is Err && (verdict(run(m, nb).1) is Pending)) ==> nb == command_line(c, x, y) + rest,
        (r is Ok || (verdict(run(m, nb).1) is Rejected)) ==> nb.len() > 0 && run(
            m,
            nb.drop_last(),
        ).1 == run(m, nb).1.drop_last(),
    ensures
        r == Ok::<Command, ()>(c),
        nb == command_line(c, x, y),
{
    let line = command_line(c, x, y);
    let s = line + rest;
    lemma_command_line_parses(m, c, x, y);
    let ts = run(m, line).1;
    if nb.len() < line.len() {
        assert(nb =~= line.take(nb.len() as int)) by {
            assert forall|i: int| 0 <= i < nb.len() implies nb[i] == line[i] by {
                assert(nb[i] == s.subrange(0, nb.len() as int)[i]);
            }
        }
        lemma_line_prefix_pending(m, c, x, y, nb.len() as int);
        assert(false);
    } else {
        let e = nb.skip(line.len() as int);
        assert(nb =~= line + e) by {
            assert forall|i: int| 0 <= i < line.len() implies nb[i] == line[i] by {
                assert(nb[i] == s.subrange(0, nb.len() as int)[i]);
            }
        }
        lemma_run_concat(m, line, e);
        let te = run(run(m, line).0, e).1;
        lemma_verdict_extends(ts, te);
        if te.len() > 0 {
            assert((ts + te).drop_last() =~= ts + te.drop_last());
            lemma_verdict_extends(ts, te.drop_last());
            assert(false);
        }
        assert(ts + te =~= ts);
        if e.len() > 0 {
            assert(nb.drop_last() =~= line + e.drop_last());
            lemma_run_concat(m, line, e.drop_last());
            assert(run(m, nb.drop_last()).1.len() >= ts.len());
            assert(false);
        }
        assert(nb =~= line);
    }
}

} // verus!
