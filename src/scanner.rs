use vstd::prelude::*;

verus! {

/// Size of the identifier/string buffer, terminator slot included.
pub const SCANNED_STRING_BUFFER_SIZE: usize = 16;

/// Most bytes an identifier or string may hold: one slot stays zero.
pub const SCANNED_STRING_CAPACITY: usize = 15;

/// The ASCII bytes that the grammar names.
pub const SPACE: u8 = 0x20;
pub const CR: u8 = 0x0D;
pub const LF: u8 = 0x0A;
pub const MINUS: u8 = 0x2D;
pub const QUOTE: u8 = 0x27;
pub const BACKSLASH: u8 = 0x5C;
pub const UNDERSCORE: u8 = 0x5F;
pub const DIGIT_0: u8 = 0x30;
pub const DIGIT_1: u8 = 0x31;
pub const DIGIT_7: u8 = 0x37;
pub const DIGIT_9: u8 = 0x39;
pub const LOWER_A: u8 = 0x61;
pub const LOWER_B: u8 = 0x62;
pub const LOWER_D: u8 = 0x64;
pub const LOWER_F: u8 = 0x66;
pub const LOWER_O: u8 = 0x6F;
pub const LOWER_X: u8 = 0x78;
pub const LOWER_Z: u8 = 0x7A;
pub const UPPER_A: u8 = 0x41;
pub const UPPER_F: u8 = 0x46;
pub const UPPER_Z: u8 = 0x5A;

pub struct Scanner {
    state: ScannerState,
    scanned_string: [u8; SCANNED_STRING_BUFFER_SIZE],
    scanned_len: usize,
    scanned_number: i32,
    scanned_number_sign: Sign,
}

#[derive(Clone, Copy, Debug, PartialEq, Eq, Structural)]
pub enum ScannerState {
    Initial,
    Identifier,
    Finish,
    String,
    NumberWithSign,
    AnyNumber,
    Escape,
    StringEnd,
    DecimalNumber,
    BinaryNumber,
    OctalNumber,
    HexadecimalNumber,
}

#[derive(Clone, Copy, Debug, PartialEq, Eq, Structural)]
pub enum Token {
    Identifier,
    String,
    Number,
    Finish,
    Invalid,
}

#[derive(Clone, Copy, PartialEq, Eq, Structural)]
enum Sign {
    Positive,
    Negative,
}

/// What a scanner holds, as mathematical values: its state, the text
/// accumulated for an identifier or string, the accumulated number and
/// whether a leading `-` was read.
pub struct ScanModel {
    pub state: ScannerState,
    pub text: Seq<u8>,
    pub number: i32,
    pub negative: bool,
}

pub open spec fn initial_model() -> ScanModel {
    ScanModel { state: ScannerState::Initial, text: Seq::empty(), number: 0, negative: false }
}

pub open spec fn is_letter(c: u8) -> bool {
    (LOWER_A <= c && c <= LOWER_Z) || (UPPER_A <= c && c <= UPPER_Z)
}

pub open spec fn is_decimal_digit(c: u8) -> bool {
    DIGIT_0 <= c && c <= DIGIT_9
}

pub open spec fn is_identifier_char(c: u8) -> bool {
    c == UNDERSCORE || is_letter(c) || is_decimal_digit(c)
}

pub open spec fn is_printable(c: u8) -> bool {
    0x20 <= c && c <= 0x7E
}

/// The value of `c` as a digit of `radix` (2, 8, 10 or 16), if it is one.
pub open spec fn digit_value(c: u8, radix: int) -> Option<int> {
    if DIGIT_0 <= c && c <= DIGIT_9 && (c - DIGIT_0) < radix {
        Some(c - DIGIT_0)
    } else if radix == 16 && LOWER_A <= c && c <= LOWER_F {
        Some(c - LOWER_A + 10)
    } else if radix == 16 && UPPER_A <= c && c <= UPPER_F {
        Some(c - UPPER_A + 10)
    } else {
        None
    }
}

/// The radix that a number state reads digits in.
pub open spec fn radix_of(s: ScannerState) -> int {
    match s {
        ScannerState::BinaryNumber => 2,
        ScannerState::OctalNumber => 8,
        ScannerState::HexadecimalNumber => 16,
        _ => 10,
    }
}

pub open spec fn fits_i32(v: int) -> bool {
    i32::MIN <= v && v <= i32::MAX
}

/// `number * radix + d` by checked steps, unless a step leaves the 32-bit
/// signed range.
pub open spec fn pushed_number(number: i32, d: int, radix: int) -> Option<i32> {
    if fits_i32(number * radix) && fits_i32(number * radix + d) {
        Some((number * radix + d) as i32)
    } else {
        None
    }
}

/// The accumulated number with its sign applied, unless that overflows.
pub open spec fn finalized_number(m: ScanModel) -> Option<i32> {
    if m.negative {
        if fits_i32(-m.number) {
            Some((-m.number) as i32)
        } else {
            None
        }
    } else {
        Some(m.number)
    }
}

pub open spec fn invalid(m: ScanModel) -> (ScanModel, Option<Token>) {
    (m, Some(Token::Invalid))
}

pub open spec fn goto(m: ScanModel, s: ScannerState) -> ScanModel {
    ScanModel { state: s, ..m }
}

/// Appends `c` to the text and moves to `s`; fails when the buffer is full.
pub open spec fn append_char(m: ScanModel, c: u8, s: ScannerState) -> (ScanModel, Option<Token>) {
    if m.text.len() < SCANNED_STRING_CAPACITY {
        (ScanModel { state: s, text: m.text.push(c), ..m }, None)
    } else {
        invalid(m)
    }
}

/// Appends digit `d` of `radix` to the number and moves to `s`; fails on overflow.
pub open spec fn append_digit(m: ScanModel, d: int, radix: int, s: ScannerState) -> (
    ScanModel,
    Option<Token>,
) {
    match pushed_number(m.number, d, radix) {
        Some(v) => (ScanModel { state: s, number: v, ..m }, None),
        None => invalid(m),
    }
}

/// Ends a number token and moves to `s`.
pub open spec fn end_number(m: ScanModel, s: ScannerState) -> (ScanModel, Option<Token>) {
    match finalized_number(m) {
        Some(v) => (ScanModel { state: s, number: v, ..m }, Some(Token::Number)),
        None => invalid(m),
    }
}

/// One transition of the scanner on byte `c`: the next model, and the token
/// completed by `c`, if any.
pub open spec fn step(m: ScanModel, c: u8) -> (ScanModel, Option<Token>) {
    match m.state {
        ScannerState::Initial => {
            if c == SPACE {
                (m, None)
            } else if c == CR {
                (goto(m, ScannerState::Finish), None)
            } else if c == MINUS {
                (
                    ScanModel {
                        state: ScannerState::NumberWithSign,
                        number: 0,
                        negative: true,
                        ..m
                    },
                    None,
                )
            } else if c == DIGIT_0 {
                (
                    ScanModel { state: ScannerState::AnyNumber, number: 0, negative: false, ..m },
                    None,
                )
            } else if is_decimal_digit(c) {
                (
                    ScanModel {
                        state: ScannerState::DecimalNumber,
                        number: (c - DIGIT_0) as i32,
                        negative: false,
                        ..m
                    },
                    None,
                )
            } else if c == QUOTE {
                (ScanModel { state: ScannerState::String, text: Seq::empty(), ..m }, None)
            } else if is_letter(c) {
                (ScanModel { state: ScannerState::Identifier, text: seq![c], ..m }, None)
            } else {
                invalid(m)
            }
        },
        ScannerState::Identifier => {
            if c == SPACE {
                (goto(m, ScannerState::Initial), Some(Token::Identifier))
            } else if c == CR {
                (goto(m, ScannerState::Finish), Some(Token::Identifier))
            } else if is_identifier_char(c) {
                append_char(m, c, ScannerState::Identifier)
            } else {
                invalid(m)
            }
        },
        ScannerState::Finish => {
            if c == LF {
                (goto(m, ScannerState::Initial), Some(Token::Finish))
            } else {
                invalid(m)
            }
        },
        ScannerState::String => {
            if c == BACKSLASH {
                (goto(m, ScannerState::Escape), None)
            } else if c == QUOTE {
                (goto(m, ScannerState::StringEnd), None)
            } else if is_printable(c) {
                append_char(m, c, ScannerState::String)
            } else {
                invalid(m)
            }
        },
        ScannerState::Escape => {
            if is_printable(c) {
                append_char(m, c, ScannerState::String)
            } else {
                invalid(m)
            }
        },
        ScannerState::StringEnd => {
            if c == SPACE {
                (goto(m, ScannerState::Initial), Some(Token::String))
            } else if c == CR {
                (goto(m, ScannerState::Finish), Some(Token::String))
            } else {
                invalid(m)
            }
        },
        ScannerState::NumberWithSign => {
            if c == DIGIT_0 {
                (goto(m, ScannerState::AnyNumber), None)
            } else if is_decimal_digit(c) {
                append_digit(m, c - DIGIT_0, 10, ScannerState::DecimalNumber)
            } else {
                invalid(m)
            }
        },
        ScannerState::AnyNumber => {
            if c == SPACE {
                end_number(m, ScannerState::Initial)
            } else if c == CR {
                end_number(m, ScannerState::Finish)
            } else if c == LOWER_B {
                (goto(m, ScannerState::BinaryNumber), None)
            } else if c == LOWER_O {
                (goto(m, ScannerState::OctalNumber), None)
            } else if c == LOWER_X {
                (goto(m, ScannerState::HexadecimalNumber), None)
            } else if is_decimal_digit(c) {
                append_digit(m, c - DIGIT_0, 10, ScannerState::DecimalNumber)
            } else if c == LOWER_D {
                (goto(m, ScannerState::DecimalNumber), None)
            } else {
                invalid(m)
            }
        },
        _ => {
            if c == SPACE {
                end_number(m, ScannerState::Initial)
            } else if c == CR {
                end_number(m, ScannerState::Finish)
            } else {
                match digit_value(c, radix_of(m.state)) {
                    Some(d) => append_digit(m, d, radix_of(m.state), m.state),
                    None => invalid(m),
                }
            }
        },
    }
}

/// Runs the scanner from `m` over all of `bs`: the final model, and each
/// token emitted on the way with the model right after it.
pub open spec fn run(m: ScanModel, bs: Seq<u8>) -> (ScanModel, Seq<(Token, ScanModel)>)
    decreases bs.len(),
{
    if bs.len() == 0 {
        (m, Seq::empty())
    } else {
        let prev = run(m, bs.drop_last());
        let next = step(prev.0, bs.last());
        match next.1 {
            Some(t) => (next.0, prev.1.push((t, next.0))),
            None => (next.0, prev.1),
        }
    }
}

impl View for Scanner {
    type V = ScanModel;

    closed spec fn view(&self) -> ScanModel {
        ScanModel {
            state: self.state,
            text: self.scanned_string@.subrange(0, self.scanned_len as int),
            number: self.scanned_number,
            negative: self.scanned_number_sign == Sign::Negative,
        }
    }
}

/// The zero-filled buffer that holds `text`.
pub open spec fn zero_filled(text: Seq<u8>) -> Seq<u8> {
    text + Seq::new((SCANNED_STRING_BUFFER_SIZE - text.len()) as nat, |i: int| 0u8)
}

/// A text that the buffer can hold: short enough, and free of zero bytes.
pub open spec fn storable_text(text: Seq<u8>) -> bool {
    text.len() <= SCANNED_STRING_CAPACITY && forall|i: int| 0 <= i < text.len() ==> text[i] != 0
}

impl Scanner {
    /// The buffer holds the text, then zeros up to its end.
    pub closed spec fn wf(&self) -> bool {
        &&& self.scanned_len <= SCANNED_STRING_CAPACITY
        &&& forall|i: int| 0 <= i < self.scanned_len ==> self.scanned_string[i] != 0
        &&& forall|i: int|
            self.scanned_len <= i < SCANNED_STRING_BUFFER_SIZE ==> self.scanned_string[i] == 0
    }

    pub fn default() -> (r: Scanner)
        ensures
            r.wf(),
            r@ == initial_model(),
    {
        let r = Scanner {
            state: ScannerState::Initial,
            scanned_string: [0; SCANNED_STRING_BUFFER_SIZE],
            scanned_len: 0,
            scanned_number: 0,
            scanned_number_sign: Sign::Positive,
        };
        assert(r@.text =~= Seq::<u8>::empty());
        r
    }

    pub proof fn lemma_wf_text(&self)
        requires
            self.wf(),
        ensures
            storable_text(self@.text),
    {
    }

    /// Feeds one byte; returns the token that it completes, if any.
    pub fn scan_command(&mut self, c: u8) -> (r: Option<Token>)
        requires
            old(self).wf(),
        ensures
            final(self).wf(),
            (final(self)@, r) == step(old(self)@, c),
    {
        match self.state {
            ScannerState::Initial => self.scan_when_initial(c),
            ScannerState::Identifier => self.scan_when_identifier(c),
            ScannerState::Finish => self.scan_when_finish(c),
            ScannerState::String => self.scan_when_string(c),
            ScannerState::NumberWithSign => self.scan_when_number_with_sign(c),
            ScannerState::AnyNumber => self.scan_when_any_number(c),
            ScannerState::Escape => self.scan_when_escape(c),
            ScannerState::StringEnd => self.scan_when_string_end(c),
            ScannerState::DecimalNumber => self.scan_when_decimal_number(c),
            ScannerState::BinaryNumber => self.scan_when_binary_number(c),
            ScannerState::OctalNumber => self.scan_when_octal_number(c),
            ScannerState::HexadecimalNumber => self.scan_when_hexadecimal_number(c),
        }
    }

    /// The number of the last number token (or the one being read).
    pub fn scanned_number(&self) -> (r: i32)
        ensures
            r == self@.number,
    {
        self.scanned_number
    }

    /// The text of the last identifier or string, zero-filled to the buffer's size.
    pub fn scanned_string(&self) -> (r: [u8; SCANNED_STRING_BUFFER_SIZE])
        requires
            self.wf(),
        ensures
            r@ == zero_filled(self@.text),
    {
        proof {
            assert(self.scanned_string@ =~= zero_filled(self@.text));
        }
        self.scanned_string
    }

    fn clear_scanned_number(&mut self)
        ensures
            *final(self) == (Scanner {
                scanned_number: 0,
                scanned_number_sign: Sign::Positive,
                ..*old(self)
            }),
    {
        self.scanned_number = 0;
        self.scanned_number_sign = Sign::Positive;
    }

    fn clear_scanned_string(&mut self)
        requires
            old(self).wf(),
        ensures
            final(self).wf(),
            final(self)@ == (ScanModel { text: Seq::empty(), ..old(self)@ }),
    {
        self.scanned_string = [0; SCANNED_STRING_BUFFER_SIZE];
        self.scanned_len = 0;
        assert(self@.text =~= Seq::<u8>::empty());
    }

    fn push_digit(&mut self, d: u8, radix: u8) -> (r: Result<(), ()>)
        requires
            old(self).wf(),
        ensures
            final(self).wf(),
            match pushed_number(old(self)@.number, d as int, radix as int) {
                Some(v) => r is Ok && final(self)@ == (ScanModel { number: v, ..old(self)@ }),
                None => r is Err && final(self)@ == old(self)@,
            },
    {
        match self.scanned_number.checked_mul(radix as i32) {
            Some(m) => match m.checked_add(d as i32) {
                Some(new_value) => {
                    self.scanned_number = new_value;
                    Ok(())
                },
                None => Err(()),
            },
            None => Err(()),
        }
    }

    fn finalize_scanned_number(&mut self) -> (r: Result<(), ()>)
        requires
            old(self).wf(),
        ensures
            final(self).wf(),
            match finalized_number(old(self)@) {
                Some(v) => r is Ok && final(self)@ == (ScanModel { number: v, ..old(self)@ }),
                None => r is Err && final(self)@ == old(self)@,
            },
    {
        if self.scanned_number_sign == Sign::Negative {
            match self.scanned_number.checked_mul(-1) {
                Some(new_value) => {
                    self.scanned_number = new_value;
                    Ok(())
                },
                None => Err(()),
            }
        } else {
            Ok(())
        }
    }

    fn push_char(&mut self, c: u8) -> (r: Result<(), ()>)
        requires
            old(self).wf(),
            c != 0,
        ensures
            final(self).wf(),
            if old(self)@.text.len() < SCANNED_STRING_CAPACITY {
                r is Ok && final(self)@ == (ScanModel { text: old(self)@.text.push(c), ..old(self)@ })
            } else {
                r is Err && final(self)@ == old(self)@
            },
    {
        if self.scanned_len < SCANNED_STRING_CAPACITY {
            let ghost before = self@.text;
            self.scanned_string[self.scanned_len] = c;
            self.scanned_len = self.scanned_len + 1;
            assert(self@.text =~= before.push(c));
            Ok(())
        } else {
            Err(())
        }
    }
    fn scan_when_initial(&mut self, c: u8) -> (r: Option<Token>)
        requires
            old(self).wf(),
            old(self)@.state == ScannerState::Initial,
        ensures
            final(self).wf(),
            (final(self)@, r) == step(old(self)@, c),
    {
        if c == SPACE {
            None
        } else if c == CR {
            self.state = ScannerState::Finish;
            None
        } else if c == MINUS {
            self.clear_scanned_number();
            self.scanned_number_sign = Sign::Negative;
            self.state = ScannerState::NumberWithSign;
            None
        } else if c == DIGIT_0 {
            self.clear_scanned_number();
            self.state = ScannerState::AnyNumber;
            None
        } else if DIGIT_1 <= c && c <= DIGIT_9 {
            self.clear_scanned_number();
            if self.push_digit(c - DIGIT_0, 10).is_err() {
                return Some(Token::Invalid);
            }
            self.state = ScannerState::DecimalNumber;
            None
        } else if c == QUOTE {
            self.clear_scanned_string();
            self.state = ScannerState::String;
            None
        } else if (LOWER_A <= c && c <= LOWER_Z) || (UPPER_A <= c && c <= UPPER_Z) {
            self.clear_scanned_string();
            if self.push_char(c).is_err() {
                return Some(Token::Invalid);
            }
            assert(self@.text =~= seq![c]);
            self.state = ScannerState::Identifier;
            None
        } else {
            Some(Token::Invalid)
        }
    }

    fn scan_when_identifier(&mut self, c: u8) -> (r: Option<Token>)
        requires
            old(self).wf(),
            old(self)@.state == ScannerState::Identifier,
        ensures
            final(self).wf(),
            (final(self)@, r) == step(old(self)@, c),
    {
        if c == SPACE {
            self.state = ScannerState::Initial;
            Some(Token::Identifier)
        } else if c == CR {
            self.state = ScannerState::Finish;
            Some(Token::Identifier)
        } else if c == UNDERSCORE || (LOWER_A <= c && c <= LOWER_Z) || (UPPER_A <= c && c <= UPPER_Z) || (DIGIT_0 <= c
            && c <= DIGIT_9) {
            if self.push_char(c).is_err() {
                return Some(Token::Invalid);
            }
            None
        } else {
            Some(Token::Invalid)
        }
    }

    fn scan_when_finish(&mut self, c: u8) -> (r: Option<Token>)
        requires
            old(self).wf(),
            old(self)@.state == ScannerState::Finish,
        ensures
            final(self).wf(),
            (final(self)@, r) == step(old(self)@, c),
    {
        if c == LF {
            self.state = ScannerState::Initial;
            Some(Token::Finish)
        } else {
            Some(Token::Invalid)
        }
    }

    fn scan_when_string(&mut self, c: u8) -> (r: Option<Token>)
        requires
            old(self).wf(),
            old(self)@.state == ScannerState::String,
        ensures
            final(self).wf(),
            (final(self)@, r) == step(old(self)@, c),
    {
        if c == BACKSLASH {
            self.state = ScannerState::Escape;
            None
        } else if c == QUOTE {
            self.state = ScannerState::StringEnd;
            None
        } else if 0x20 <= c && c <= 0x7E {
            if self.push_char(c).is_err() {
                return Some(Token::Invalid);
            }
            None
        } else {
            Some(Token::Invalid)
        }
    }

    fn scan_when_number_with_sign(&mut self, c: u8) -> (r: Option<Token>)
        requires
            old(self).wf(),
            old(self)@.state == ScannerState::NumberWithSign,
        ensures
            final(self).wf(),
            (final(self)@, r) == step(old(self)@, c),
    {
        if c == DIGIT_0 {
            self.state = ScannerState::AnyNumber;
            None
        } else if DIGIT_0 <= c && c <= DIGIT_9 {
            if self.push_digit(c - DIGIT_0, 10).is_err() {
                return Some(Token::Invalid);
            }
            self.state = ScannerState::DecimalNumber;
            None
        } else {
            Some(Token::Invalid)
        }
    }

    /// Ends a number token on a space or a carriage return.
    fn end_number_token(&mut self, next: ScannerState) -> (r: Option<Token>)
        requires
            old(self).wf(),
        ensures
            final(self).wf(),
            (final(self)@, r) == end_number(old(self)@, next),
    {
        if self.finalize_scanned_number().is_err() {
            return Some(Token::Invalid);
        }
        self.state = next;
        Some(Token::Number)
    }

    fn scan_when_any_number(&mut self, c: u8) -> (r: Option<Token>)
        requires
            old(self).wf(),
            old(self)@.state == ScannerState::AnyNumber,
        ensures
            final(self).wf(),
            (final(self)@, r) == step(old(self)@, c),
    {
        if c == SPACE {
            self.end_number_token(ScannerState::Initial)
        } else if c == CR {
            self.end_number_token(ScannerState::Finish)
        } else if c == LOWER_B {
            self.state = ScannerState::BinaryNumber;
            None
        } else if c == LOWER_O {
            self.state = ScannerState::OctalNumber;
            None
        } else if c == LOWER_X {
            self.state = ScannerState::HexadecimalNumber;
            None
        } else if DIGIT_0 <= c && c <= DIGIT_9 {
            if self.push_digit(c - DIGIT_0, 10).is_err() {
                return Some(Token::Invalid);
            }
            self.state = ScannerState::DecimalNumber;
            None
        } else if c == LOWER_D {
            self.state = ScannerState::DecimalNumber;
            None
        } else {
            Some(Token::Invalid)
        }
    }

    fn scan_when_escape(&mut self, c: u8) -> (r: Option<Token>)
        requires
            old(self).wf(),
            old(self)@.state == ScannerState::Escape,
        ensures
            final(self).wf(),
            (final(self)@, r) == step(old(self)@, c),
    {
        if 0x20 <= c && c <= 0x7E {
            if self.push_char(c).is_err() {
                return Some(Token::Invalid);
            }
            self.state = ScannerState::String;
            None
        } else {
            Some(Token::Invalid)
        }
    }

    fn scan_when_string_end(&mut self, c: u8) -> (r: Option<Token>)
        requires
            old(self).wf(),
            old(self)@.state == ScannerState::StringEnd,
        ensures
            final(self).wf(),
            (final(self)@, r) == step(old(self)@, c),
    {
        if c == SPACE {
            self.state = ScannerState::Initial;
            Some(Token::String)
        } else if c == CR {
            self.state = ScannerState::Finish;
            Some(Token::String)
        } else {
            Some(Token::Invalid)
        }
    }

    fn scan_when_decimal_number(&mut self, c: u8) -> (r: Option<Token>)
        requires
            old(self).wf(),
            old(self)@.state == ScannerState::DecimalNumber,
        ensures
            final(self).wf(),
            (final(self)@, r) == step(old(self)@, c),
    {
        if c == SPACE {
            self.end_number_token(ScannerState::Initial)
        } else if c == CR {
            self.end_number_token(ScannerState::Finish)
        } else if DIGIT_0 <= c && c <= DIGIT_9 {
            if self.push_digit(c - DIGIT_0, 10).is_err() {
                return Some(Token::Invalid);
            }
            None
        } else {
            Some(Token::Invalid)
        }
    }

    fn scan_when_binary_number(&mut self, c: u8) -> (r: Option<Token>)
        requires
            old(self).wf(),
            old(self)@.state == ScannerState::BinaryNumber,
        ensures
            final(self).wf(),
            (final(self)@, r) == step(old(self)@, c),
    {
        if c == SPACE {
            self.end_number_token(ScannerState::Initial)
        } else if c == CR {
            self.end_number_token(ScannerState::Finish)
        } else if c == DIGIT_0 || c == DIGIT_1 {
            if self.push_digit(c - DIGIT_0, 2).is_err() {
                return Some(Token::Invalid);
            }
            None
        } else {
            Some(Token::Invalid)
        }
    }

    fn scan_when_octal_number(&mut self, c: u8) -> (r: Option<Token>)
        requires
            old(self).wf(),
            old(self)@.state == ScannerState::OctalNumber,
        ensures
            final(self).wf(),
            (final(self)@, r) == step(old(self)@, c),
    {
        if c == SPACE {
            self.end_number_token(ScannerState::Initial)
        } else if c == CR {
            self.end_number_token(ScannerState::Finish)
        } else if DIGIT_0 <= c && c <= DIGIT_7 {
            if self.push_digit(c - DIGIT_0, 8).is_err() {
                return Some(Token::Invalid);
            }
            None
        } else {
            Some(Token::Invalid)
        }
    }

    fn scan_when_hexadecimal_number(&mut self, c: u8) -> (r: Option<Token>)
        requires
            old(self).wf(),
            old(self)@.state == ScannerState::HexadecimalNumber,
        ensures
            final(self).wf(),
            (final(self)@, r) == step(old(self)@, c),
    {
        if c == SPACE {
            self.end_number_token(ScannerState::Initial)
        } else if c == CR {
            self.end_number_token(ScannerState::Finish)
        } else if DIGIT_0 <= c && c <= DIGIT_9 {
            if self.push_digit(c - DIGIT_0, 16).is_err() {
                return Some(Token::Invalid);
            }
            None
        } else if LOWER_A <= c && c <= LOWER_F {
            if self.push_digit(c - LOWER_A + 10, 16).is_err() {
                return Some(Token::Invalid);
            }
            None
        } else if UPPER_A <= c && c <= UPPER_F {
            if self.push_digit(c - UPPER_A + 10, 16).is_err() {
                return Some(Token::Invalid);
            }
            None
        } else {
            Some(Token::Invalid)
        }
    }
}

} // verus!
