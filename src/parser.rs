use vstd::prelude::*;

use crate::reader::Reader;
use crate::scanner::{
    initial_model, run, ScannerState, storable_text, zero_filled, ScanModel, Scanner, Token,
    SCANNED_STRING_BUFFER_SIZE,
};
use crate::lines::{command_line, lemma_line_outcome, writes_arguments, WrittenNumber};
use crate::literals::lemma_run_concat;
use crate::util::{terminated_equal, u8_str_equal};

verus! {

#[derive(Clone, Copy, Debug, PartialEq, Eq, Structural)]
pub enum Command {
    ReadByte(u32),
    WriteByte(u32, u8),
    ReadData(u32, u32),
    WritePage(u16),
    SetDevice(DeviceName),
}

#[derive(Clone, Copy, Debug, PartialEq, Eq, Structural)]
pub enum DeviceName {
    X00,
    X01,
    X02,
    X04,
    X08,
    X16,
    X32,
    X64,
    X128,
    X256,
    X512,
    XM01,
    XM02,
}

/// A token as the parser sees it: its kind, and the scanner's model right
/// after it was emitted (which holds its text or number).
pub type Event = (Token, ScanModel);

/// How far a sequence of tokens gets through the grammar of one command.
pub enum Verdict {
    /// Every token so far fits, and more are needed.
    Pending,
    /// The last token completed this command.
    Accepted(Command),
    /// The last token does not fit.
    Rejected,
}

/// The text of each device identifier.
pub open spec fn device_text(d: DeviceName) -> Seq<u8> {
    match d {
        DeviceName::X00 => seq![0x78u8, 0x30, 0x30],  // x00
        DeviceName::X01 => seq![0x78u8, 0x30, 0x31],  // x01
        DeviceName::X02 => seq![0x78u8, 0x30, 0x32],  // x02
        DeviceName::X04 => seq![0x78u8, 0x30, 0x34],  // x04
        DeviceName::X08 => seq![0x78u8, 0x30, 0x38],  // x08
        DeviceName::X16 => seq![0x78u8, 0x31, 0x36],  // x16
        DeviceName::X32 => seq![0x78u8, 0x33, 0x32],  // x32
        DeviceName::X64 => seq![0x78u8, 0x36, 0x34],  // x64
        DeviceName::X128 => seq![0x78u8, 0x31, 0x32, 0x38],  // x128
        DeviceName::X256 => seq![0x78u8, 0x32, 0x35, 0x36],  // x256
        DeviceName::X512 => seq![0x78u8, 0x35, 0x31, 0x32],  // x512
        DeviceName::XM01 => seq![0x78u8, 0x6D, 0x30, 0x31],  // xm01
        DeviceName::XM02 => seq![0x78u8, 0x6D, 0x30, 0x32],  // xm02
    }
}

/// The device that an identifier names, if any.
pub open spec fn device_named(t: Seq<u8>) -> Option<DeviceName> {
    if t == device_text(DeviceName::X00) {
        Some(DeviceName::X00)
    } else if t == device_text(DeviceName::X01) {
        Some(DeviceName::X01)
    } else if t == device_text(DeviceName::X02) {
        Some(DeviceName::X02)
    } else if t == device_text(DeviceName::X04) {
        Some(DeviceName::X04)
    } else if t == device_text(DeviceName::X08) {
        Some(DeviceName::X08)
    } else if t == device_text(DeviceName::X16) {
        Some(DeviceName::X16)
    } else if t == device_text(DeviceName::X32) {
        Some(DeviceName::X32)
    } else if t == device_text(DeviceName::X64) {
        Some(DeviceName::X64)
    } else if t == device_text(DeviceName::X128) {
        Some(DeviceName::X128)
    } else if t == device_text(DeviceName::X256) {
        Some(DeviceName::X256)
    } else if t == device_text(DeviceName::X512) {
        Some(DeviceName::X512)
    } else if t == device_text(DeviceName::XM01) {
        Some(DeviceName::XM01)
    } else if t == device_text(DeviceName::XM02) {
        Some(DeviceName::XM02)
    } else {
        None
    }
}

pub open spec fn keyword_read_byte() -> Seq<u8> {
    seq![0x72u8, 0x62]  // rb
}

pub open spec fn keyword_write_byte() -> Seq<u8> {
    seq![0x77u8, 0x62]  // wb
}

pub open spec fn keyword_read_data() -> Seq<u8> {
    seq![0x72u8, 0x64]  // rd
}

pub open spec fn keyword_write_page() -> Seq<u8> {
    seq![0x77u8, 0x70]  // wp
}

pub open spec fn keyword_set_device() -> Seq<u8> {
    seq![0x73u8, 0x64]  // sd
}

/// An address or a length: a number in [0, 2^31 - 1], the non-negative
/// values that the scanner can produce.
pub open spec fn address_of(e: Event) -> Option<u32> {
    if e.0 == Token::Number && e.1.number >= 0 {
        Some(e.1.number as u32)
    } else {
        None
    }
}

/// A byte: a number in [-128, 255], a negative one taken as its
/// two's complement.
pub open spec fn byte_of(e: Event) -> Option<u8> {
    if e.0 == Token::Number && -128 <= e.1.number < 0 {
        Some((e.1.number + 256) as u8)
    } else if e.0 == Token::Number && 0 <= e.1.number < 256 {
        Some(e.1.number as u8)
    } else {
        None
    }
}

/// A page: a number in [0, 1023].
pub open spec fn page_of(e: Event) -> Option<u16> {
    if e.0 == Token::Number && 0 <= e.1.number <= 1023 {
        Some(e.1.number as u16)
    } else {
        None
    }
}

/// A device: an identifier that names one.
pub open spec fn device_of(e: Event) -> Option<DeviceName> {
    if e.0 == Token::Identifier {
        device_named(e.1.text)
    } else {
        None
    }
}

/// The line must end here.
pub open spec fn finish_verdict(ts: Seq<Event>, c: Command) -> Verdict {
    if ts.len() == 0 {
        Verdict::Pending
    } else if ts[0].0 == Token::Finish {
        Verdict::Accepted(c)
    } else {
        Verdict::Rejected
    }
}

/// The tokens after `rb`: an address, then the end of the line.
pub open spec fn read_byte_verdict(ts: Seq<Event>) -> Verdict {
    if ts.len() == 0 {
        Verdict::Pending
    } else {
        match address_of(ts[0]) {
            Some(a) => finish_verdict(ts.drop_first(), Command::ReadByte(a)),
            None => Verdict::Rejected,
        }
    }
}

/// The tokens after `wb`: an address, a byte, then the end of the line.
pub open spec fn write_byte_verdict(ts: Seq<Event>) -> Verdict {
    if ts.len() == 0 {
        Verdict::Pending
    } else {
        match address_of(ts[0]) {
            Some(a) => {
                let rest = ts.drop_first();
                if rest.len() == 0 {
                    Verdict::Pending
                } else {
                    match byte_of(rest[0]) {
                        Some(b) => finish_verdict(rest.drop_first(), Command::WriteByte(a, b)),
                        None => Verdict::Rejected,
                    }
                }
            },
            None => Verdict::Rejected,
        }
    }
}

/// The tokens after `rd`: an address, a length, then the end of the line.
pub open spec fn read_data_verdict(ts: Seq<Event>) -> Verdict {
    if ts.len() == 0 {
        Verdict::Pending
    } else {
        match address_of(ts[0]) {
            Some(a) => {
                let rest = ts.drop_first();
                if rest.len() == 0 {
                    Verdict::Pending
                } else {
                    match address_of(rest[0]) {
                        Some(n) => finish_verdict(rest.drop_first(), Command::ReadData(a, n)),
                        None => Verdict::Rejected,
                    }
                }
            },
            None => Verdict::Rejected,
        }
    }
}

/// The tokens after `wp`: a page, then the end of the line.
pub open spec fn write_page_verdict(ts: Seq<Event>) -> Verdict {
    if ts.len() == 0 {
        Verdict::Pending
    } else {
        match page_of(ts[0]) {
            Some(p) => finish_verdict(ts.drop_first(), Command::WritePage(p)),
            None => Verdict::Rejected,
        }
    }
}

/// The tokens after `sd`: a device identifier, then the end of the line.
pub open spec fn set_device_verdict(ts: Seq<Event>) -> Verdict {
    if ts.len() == 0 {
        Verdict::Pending
    } else {
        match device_of(ts[0]) {
            Some(d) => finish_verdict(ts.drop_first(), Command::SetDevice(d)),
            None => Verdict::Rejected,
        }
    }
}

/// The grammar of one command line over its tokens: a keyword identifier,
/// the arguments that the keyword asks for, and the end of the line.
pub open spec fn verdict(ts: Seq<Event>) -> Verdict {
    if ts.len() == 0 {
        Verdict::Pending
    } else if ts[0].0 != Token::Identifier {
        Verdict::Rejected
    } else {
        let kw = ts[0].1.text;
        let rest = ts.drop_first();
        if kw == keyword_read_byte() {
            read_byte_verdict(rest)
        } else if kw == keyword_write_byte() {
            write_byte_verdict(rest)
        } else if kw == keyword_read_data() {
            read_data_verdict(rest)
        } else if kw == keyword_write_page() {
            write_page_verdict(rest)
        } else if kw == keyword_set_device() {
            set_device_verdict(rest)
        } else {
            Verdict::Rejected
        }
    }
}

/// A parse result agrees with the verdict on the tokens that it read.
pub open spec fn outcome_matches(r: Result<Command, ()>, v: Verdict) -> bool {
    match r {
        Ok(c) => v == Verdict::Accepted(c),
        Err(_) => !(v is Accepted),
    }
}

/// The tokens read since `before`.
pub open spec fn new_tokens(before: Seq<Event>, after: Seq<Event>) -> Seq<Event> {
    after.skip(before.len() as int)
}

/// Exactly one token was added to the log.
pub open spec fn one_more(before: Seq<Event>, after: Seq<Event>) -> bool {
    after.len() == before.len() + 1 && after.drop_last() == before
}

/// A zero-filled buffer holding `t` and the zero-terminated `kw` compare
/// equal exactly when `t` is `kw`.
proof fn lemma_terminated_text(t: Seq<u8>, kw: Seq<u8>)
    requires
        storable_text(t),
        storable_text(kw),
    ensures
        terminated_equal(zero_filled(t), kw.push(0)) == (t == kw),
{
    let a = zero_filled(t);
    let b = kw.push(0);
    assert(a.len() == SCANNED_STRING_BUFFER_SIZE);
    if t == kw {
        let k = t.len() as int;
        assert(a.take(k + 1) =~= b.take(k + 1));
        assert(a[k] == 0);
    }
    if terminated_equal(a, b) {
        let k = choose|k: int|
            0 <= k < a.len() && k < b.len() && a[k] == 0 && #[trigger] a.take(k + 1) == b.take(
                k + 1,
            );
        if k < t.len() {
            assert(a[k] == t[k]);
        }
        assert(a.take(k + 1)[k] == b.take(k + 1)[k]);
        if k < kw.len() {
            assert(b[k] == kw[k]);
        }
        let tl = t.len() as int;
        assert(a.take(k + 1)[tl] == b.take(k + 1)[tl]);
        if tl < kw.len() {
            assert(b[tl] == kw[tl]);
        }
        assert forall|j: int| 0 <= j < tl implies t[j] == kw[j] by {
            assert(a.take(k + 1)[j] == b.take(k + 1)[j]);
            assert(a[j] == t[j]);
            assert(b[j] == kw[j]);
        }
        assert(t =~= kw);
    }
}

/// Reading one token, then more: the new tokens are that one token
/// followed by the rest.
proof fn lemma_one_then_rest(t0: Seq<Event>, t1: Seq<Event>, tf: Seq<Event>)
    requires
        one_more(t0, t1),
        t1.is_prefix_of(tf),
    ensures
        t0.is_prefix_of(tf),
        new_tokens(t0, tf).len() == new_tokens(t1, tf).len() + 1,
        new_tokens(t0, tf)[0] == t1.last(),
        new_tokens(t0, tf).drop_first() == new_tokens(t1, tf),
        new_tokens(t1, tf).len() > 0 ==> new_tokens(t0, tf).drop_last()[0] == t1.last()
            && new_tokens(t0, tf).drop_last().drop_first() == new_tokens(t1, tf).drop_last(),
        new_tokens(t1, tf).len() == 0 ==> new_tokens(t0, tf).drop_last().len() == 0,
{
    assert(t0 =~= t1.drop_last());
    assert forall|i: int| 0 <= i < t0.len() implies t0[i] == tf[i] by {
        assert(t0[i] == t1[i]);
    }
    assert(t0.is_prefix_of(tf));
    assert(new_tokens(t0, tf)[0] == tf[t0.len() as int]);
    assert(new_tokens(t0, tf).drop_first() =~= new_tokens(t1, tf));
    if new_tokens(t1, tf).len() > 0 {
        assert(new_tokens(t0, tf).drop_last().drop_first() =~= new_tokens(t1, tf).drop_last());
    }
}

proof fn lemma_one_more_prefix(t0: Seq<Event>, t1: Seq<Event>)
    requires
        one_more(t0, t1),
    ensures
        t0.is_prefix_of(t1),
{
    assert(t0 =~= t1.subrange(0, t0.len() as int));
}

proof fn lemma_prefix_trans<A>(a: Seq<A>, b: Seq<A>, c: Seq<A>)
    requires
        a.is_prefix_of(b),
        b.is_prefix_of(c),
    ensures
        a.is_prefix_of(c),
{
    assert forall|i: int| 0 <= i < a.len() implies a[i] == c[i] by {
        assert(a[i] == b.subrange(0, a.len() as int)[i]);
        assert(b[i] == c.subrange(0, b.len() as int)[i]);
    }
    assert(a =~= c.subrange(0, a.len() as int));
}

proof fn lemma_new_none(t: Seq<Event>)
    ensures
        new_tokens(t, t) =~= Seq::<Event>::empty(),
        t.is_prefix_of(t),
{
    assert(t =~= t.subrange(0, t.len() as int));
}

proof fn lemma_new_one(t0: Seq<Event>, t1: Seq<Event>)
    requires
        one_more(t0, t1),
    ensures
        new_tokens(t0, t1) =~= seq![t1.last()],
        new_tokens(t0, t1).drop_last() =~= Seq::<Event>::empty(),
        new_tokens(t0, t1).drop_first() =~= Seq::<Event>::empty(),
        t0.is_prefix_of(t1),
{
    lemma_one_more_prefix(t0, t1);
}

proof fn lemma_new_two(t0: Seq<Event>, t1: Seq<Event>, t2: Seq<Event>)
    requires
        one_more(t0, t1),
        one_more(t1, t2),
    ensures
        new_tokens(t0, t2) =~= seq![t1.last(), t2.last()],
        new_tokens(t0, t2).drop_last() =~= seq![t1.last()],
        new_tokens(t0, t2).drop_first() =~= seq![t2.last()],
        seq![t1.last()].drop_first() =~= Seq::<Event>::empty(),
        seq![t2.last()].drop_first() =~= Seq::<Event>::empty(),
        t0.is_prefix_of(t2),
{
    lemma_one_more_prefix(t0, t1);
    lemma_one_more_prefix(t1, t2);
    lemma_prefix_trans(t0, t1, t2);
    assert(t2[t0.len() as int] == t1[t0.len() as int]);
}

proof fn lemma_new_three(t0: Seq<Event>, t1: Seq<Event>, t2: Seq<Event>, t3: Seq<Event>)
    requires
        one_more(t0, t1),
        one_more(t1, t2),
        one_more(t2, t3),
    ensures
        new_tokens(t0, t3) =~= seq![t1.last(), t2.last(), t3.last()],
        new_tokens(t0, t3).drop_last() =~= seq![t1.last(), t2.last()],
        new_tokens(t0, t3).drop_first() =~= seq![t2.last(), t3.last()],
        seq![t1.last(), t2.last()].drop_first() =~= seq![t2.last()],
        seq![t2.last(), t3.last()].drop_first() =~= seq![t3.last()],
        t0.is_prefix_of(t3),
{
    lemma_new_two(t0, t1, t2);
    lemma_one_more_prefix(t2, t3);
    lemma_prefix_trans(t0, t2, t3);
    assert(t3[t0.len() as int] == t1[t0.len() as int]);
    assert(t3[t0.len() as int + 1] == t2[t0.len() as int + 1]);
}

/// Between two states of a parser over one reader, the reader's stream
/// lost exactly the bytes that were read in between.
pub proof fn lemma_stream_taken<R: Reader>(before: Parser<R>, after: Parser<R>)
    requires
        before.wf(),
        after.wf(),
        before.origin() == after.origin(),
        before.bytes().is_prefix_of(after.bytes()),
    ensures
        before.source().stream() == after.bytes().skip(before.bytes().len() as int) + after.source().stream(),
{
    let n = before.bytes().len() as int;
    let o = after.origin();
    assert(before.source().stream() =~= o.skip(n));
    assert(after.bytes().skip(n) + after.source().stream() =~= o.skip(n));
}

/// What a parse that keeps `parse_command`'s guarantees does with a stream
/// that starts with a well-formed line, from the start of a token: it
/// returns the line's command and takes exactly the line.
proof fn lemma_parse_reads_line<R: Reader>(
    before: Parser<R>,
    after: Parser<R>,
    r: Result<Command, ()>,
    c: Command,
    x: WrittenNumber,
    y: WrittenNumber,
)
    requires
        before.wf(),
        after.wf(),
        before.bytes().is_prefix_of(after.bytes()),
        outcome_matches(r, verdict(new_tokens(before.tokens(), after.tokens()))),
        new_tokens(before.tokens(), after.tokens()).len() > 0 ==> verdict(
            new_tokens(before.tokens(), after.tokens()).drop_last(),
        ) == Verdict::Pending,
        (r is Err && (verdict(new_tokens(before.tokens(), after.tokens())) is Pending))
            ==> after.source().stream().len() == 0,
        (r is Ok || (verdict(new_tokens(before.tokens(), after.tokens())) is Rejected))
            ==> after.last_byte_ended_token(),
        before.source().stream() == after.bytes().skip(before.bytes().len() as int)
            + after.source().stream(),
        before.scanner_model().state == ScannerState::Initial,
        writes_arguments(c, x, y),
        command_line(c, x, y).is_prefix_of(before.source().stream()),
    ensures
        r == Ok::<Command, ()>(c),
        after.source().stream() == before.source().stream().skip(command_line(c, x, y).len() as int),
{
    let line = command_line(c, x, y);
    let st = before.source().stream();
    let rest = st.skip(line.len() as int);
    assert(st =~= line + rest);
    let b0 = before.bytes();
    let nb = after.bytes().skip(b0.len() as int);
    let m = before.scanner_model();
    assert(after.bytes() =~= b0 + nb);
    lemma_run_concat(initial_model(), b0, nb);
    let tn = run(m, nb).1;
    assert(new_tokens(before.tokens(), after.tokens()) =~= tn);
    assert(nb.is_prefix_of(line + rest)) by {
        assert(nb =~= st.subrange(0, nb.len() as int));
    }
    if r is Ok || (verdict(tn) is Rejected) {
        if nb.len() == 0 {
            assert(nb =~= Seq::<u8>::empty());
            assert(tn =~= Seq::<Event>::empty());
        }
        assert(after.bytes().drop_last() =~= b0 + nb.drop_last());
        lemma_run_concat(initial_model(), b0, nb.drop_last());
        let tl = run(m, nb.drop_last()).1;
        assert(tn.len() > 0);
        assert(after.tokens().drop_last() =~= before.tokens() + tn.drop_last());
        assert(tl =~= tn.drop_last()) by {
            assert(tl.len() == tn.drop_last().len());
            assert forall|i: int| 0 <= i < tl.len() implies tl[i] == tn.drop_last()[i] by {
                assert((before.tokens() + tl)[before.tokens().len() + i] == tl[i]);
                assert((before.tokens() + tn.drop_last())[before.tokens().len() + i]
                    == tn.drop_last()[i]);
            }
        }
    }
    if r is Err && (verdict(tn) is Pending) {
        assert(nb =~= line + rest);
    }
    lemma_line_outcome(m, c, x, y, rest, nb, r);
    assert(after.source().stream() =~= rest);
}

pub struct Parser<R> {
    reader: R,
    scanner: Scanner,
    bytes: Ghost<Seq<u8>>,
    tokens: Ghost<Seq<Event>>,
    origin: Ghost<Seq<u8>>,
}

impl<R: Reader> Parser<R> {
    /// The scanner has seen exactly the bytes read so far and emitted
    /// exactly the tokens read so far.
    pub closed spec fn wf(&self) -> bool {
        &&& self.scanner.wf()
        &&& run(initial_model(), self.bytes@) == (self.scanner@, self.tokens@)
        &&& self.origin@ == self.bytes@ + self.reader.stream()
    }

    /// Every byte read from the reader so far.
    pub closed spec fn bytes(&self) -> Seq<u8> {
        self.bytes@
    }

    /// Every token drawn from the scanner so far.
    pub closed spec fn tokens(&self) -> Seq<Event> {
        self.tokens@
    }

    /// What the reader held when the parser was made: the bytes read so
    /// far, then the reader's stream.
    pub closed spec fn origin(&self) -> Seq<u8> {
        self.origin@
    }

    /// The last byte read completed the last token read: nothing was read
    /// past it.
    pub open spec fn last_byte_ended_token(&self) -> bool {
        &&& self.bytes().len() > 0
        &&& self.tokens().len() > 0
        &&& run(initial_model(), self.bytes().drop_last()).1 == self.tokens().drop_last()
    }

    pub closed spec fn scanner_model(&self) -> ScanModel {
        self.scanner@
    }

    pub closed spec fn source(&self) -> R {
        self.reader
    }

    pub fn new(reader: R) -> (r: Parser<R>)
        ensures
            r.wf(),
            r.bytes() == Seq::<u8>::empty(),
            r.tokens() == Seq::<Event>::empty(),
            r.scanner_model() == initial_model(),
            r.origin() == reader.stream(),
            r.source() == reader,
    {
        let ghost origin = reader.stream();
        let r = Parser {
            reader,
            scanner: Scanner::default(),
            bytes: Ghost(Seq::empty()),
            tokens: Ghost(Seq::empty()),
            origin: Ghost(origin),
        };
        assert(r.bytes@ + r.reader.stream() =~= origin);
        r
    }

    pub fn destroy(self) -> (r: R)
        ensures
            r == self.source(),
    {
        self.reader
    }

    pub proof fn lemma_wf(&self)
        requires
            self.wf(),
        ensures
            run(initial_model(), self.bytes()) == (self.scanner_model(), self.tokens()),
    {
    }

    /// Feeds bytes to the scanner until it emits a token, and reads no
    /// further. Fails only when the reader's stream runs out first.
    fn get_token(&mut self) -> (r: Result<Token, ()>)
        requires
            old(self).wf(),
        ensures
            final(self).wf(),
            old(self).source().stream() == final(self).bytes().skip(old(self).bytes().len() as int)
                + final(self).source().stream(),
            final(self).origin() == old(self).origin(),
            old(self).bytes().is_prefix_of(final(self).bytes()),
            match r {
                Ok(t) => {
                    &&& final(self).tokens() == old(self).tokens().push(
                        (t, final(self).scanner_model()),
                    )
                    &&& one_more(old(self).tokens(), final(self).tokens())
                    &&& final(self).last_byte_ended_token()
                    &&& t == Token::Finish ==> final(self).scanner_model().state
                        == ScannerState::Initial
                },
                Err(_) => {
                    &&& final(self).tokens() == old(self).tokens()
                    &&& final(self).source().stream().len() == 0
                },
            },
    {
        loop
            invariant
                old(self).wf(),
                self.wf(),
                old(self).bytes().is_prefix_of(self.bytes()),
                self.tokens() == old(self).tokens(),
                self.origin() == old(self).origin(),
            decreases self.reader.stream().len(),
        {
            let ghost before_read = self.reader.stream();
            match self.reader.read() {
                None => {
                    proof {
                        lemma_stream_taken(*old(self), *self);
                    }
                    return Err(());
                },
                Some(c) => {
                    let ghost prev = self.bytes@;
                    let res = self.scanner.scan_command(c);
                    self.bytes = Ghost(prev.push(c));
                    assert(self.bytes@.drop_last() =~= prev);
                    assert(self.bytes@ + self.reader.stream() =~= prev + before_read);
                    assert(prev.is_prefix_of(self.bytes@));
                    match res {
                        Some(t) => {
                            let ghost before = self.tokens@;
                            self.tokens = Ghost(self.tokens@.push((t, self.scanner@)));
                            assert(self.tokens@.drop_last() =~= before);
                            proof {
                                lemma_prefix_trans(old(self).bytes(), prev, self.bytes());
                                lemma_stream_taken(*old(self), *self);
                            }
                            return Ok(t);
                        },
                        None => {},
                    }
                },
            }
        }
    }

    /// Whether the text of the last identifier is `name`, given with its
    /// terminating zero.
    fn text_is(&self, name: &[u8]) -> (r: bool)
        requires
            self.wf(),
            name@.len() >= 1,
            name@.last() == 0,
            storable_text(name@.drop_last()),
        ensures
            r == (self.scanner_model().text == name@.drop_last()),
    {
        let buf = self.scanner.scanned_string();
        proof {
            self.scanner.lemma_wf_text();
            lemma_terminated_text(self.scanner@.text, name@.drop_last());
            assert(name@ =~= name@.drop_last().push(0));
        }
        u8_str_equal(&buf, name)
    }

    fn parse_address(&mut self) -> (r: Result<u32, ()>)
        requires
            old(self).wf(),
        ensures
            final(self).wf(),
            old(self).bytes().is_prefix_of(final(self).bytes()),
            match r {
                Ok(a) => one_more(old(self).tokens(), final(self).tokens()) && address_of(
                    final(self).tokens().last(),
                ) == Some(a),
                Err(_) => (final(self).tokens() == old(self).tokens() && final(self).source().stream().len() == 0) || (one_more(
                    old(self).tokens(),
                    final(self).tokens(),
                ) && (address_of(final(self).tokens().last()) is None)),
            },
            final(self).tokens() != old(self).tokens() ==> final(self).last_byte_ended_token(),
            final(self).origin() == old(self).origin(),
    {
        let arg = match self.get_token() {
            Ok(t) => t,
            Err(e) => {
                return Err(e);
            },
        };
        if arg != Token::Number {
            Err(())
        } else {
            let addr = self.scanner.scanned_number();
            if addr < 0 {
                Err(())
            } else {
                Ok(addr as u32)
            }
        }
    }

    fn parse_data(&mut self) -> (r: Result<u8, ()>)
        requires
            old(self).wf(),
        ensures
            final(self).wf(),
            old(self).bytes().is_prefix_of(final(self).bytes()),
            match r {
                Ok(b) => one_more(old(self).tokens(), final(self).tokens()) && byte_of(
                    final(self).tokens().last(),
                ) == Some(b),
                Err(_) => (final(self).tokens() == old(self).tokens() && final(self).source().stream().len() == 0) || (one_more(
                    old(self).tokens(),
                    final(self).tokens(),
                ) && (byte_of(final(self).tokens().last()) is None)),
            },
            final(self).tokens() != old(self).tokens() ==> final(self).last_byte_ended_token(),
            final(self).origin() == old(self).origin(),
    {
        let arg = match self.get_token() {
            Ok(t) => t,
            Err(e) => {
                return Err(e);
            },
        };
        if arg != Token::Number {
            Err(())
        } else {
            let data = self.scanner.scanned_number();
            if data < 0 {
                if data >= -128 {
                    Ok((0x100 + data) as u8)
                } else {
                    Err(())
                }
            } else {
                if data < 256 {
                    Ok(data as u8)
                } else {
                    Err(())
                }
            }
        }
    }

    fn parse_length(&mut self) -> (r: Result<u32, ()>)
        requires
            old(self).wf(),
        ensures
            final(self).wf(),
            old(self).bytes().is_prefix_of(final(self).bytes()),
            match r {
                Ok(n) => one_more(old(self).tokens(), final(self).tokens()) && address_of(
                    final(self).tokens().last(),
                ) == Some(n),
                Err(_) => (final(self).tokens() == old(self).tokens() && final(self).source().stream().len() == 0) || (one_more(
                    old(self).tokens(),
                    final(self).tokens(),
                ) && (address_of(final(self).tokens().last()) is None)),
            },
            final(self).tokens() != old(self).tokens() ==> final(self).last_byte_ended_token(),
            final(self).origin() == old(self).origin(),
    {
        let arg = match self.get_token() {
            Ok(t) => t,
            Err(e) => {
                return Err(e);
            },
        };
        if arg != Token::Number {
            Err(())
        } else {
            let len = self.scanner.scanned_number();
            if len < 0 {
                Err(())
            } else {
                Ok(len as u32)
            }
        }
    }

    fn parse_page(&mut self) -> (r: Result<u16, ()>)
        requires
            old(self).wf(),
        ensures
            final(self).wf(),
            old(self).bytes().is_prefix_of(final(self).bytes()),
            match r {
                Ok(p) => one_more(old(self).tokens(), final(self).tokens()) && page_of(
                    final(self).tokens().last(),
                ) == Some(p),
                Err(_) => (final(self).tokens() == old(self).tokens() && final(self).source().stream().len() == 0) || (one_more(
                    old(self).tokens(),
                    final(self).tokens(),
                ) && (page_of(final(self).tokens().last()) is None)),
            },
            final(self).tokens() != old(self).tokens() ==> final(self).last_byte_ended_token(),
            final(self).origin() == old(self).origin(),
    {
        let arg = match self.get_token() {
            Ok(t) => t,
            Err(e) => {
                return Err(e);
            },
        };
        if arg != Token::Number {
            Err(())
        } else {
            let page = self.scanner.scanned_number();
            if page < 0 || 1023 < page {
                Err(())
            } else {
                Ok(page as u16)
            }
        }
    }

    fn parse_device_name(&mut self) -> (r: Result<DeviceName, ()>)
        requires
            old(self).wf(),
        ensures
            final(self).wf(),
            old(self).bytes().is_prefix_of(final(self).bytes()),
            match r {
                Ok(d) => one_more(old(self).tokens(), final(self).tokens()) && device_of(
                    final(self).tokens().last(),
                ) == Some(d),
                Err(_) => (final(self).tokens() == old(self).tokens() && final(self).source().stream().len() == 0) || (one_more(
                    old(self).tokens(),
                    final(self).tokens(),
                ) && (device_of(final(self).tokens().last()) is None)),
            },
            final(self).tokens() != old(self).tokens() ==> final(self).last_byte_ended_token(),
            final(self).origin() == old(self).origin(),
    {
        let arg = match self.get_token() {
            Ok(t) => t,
            Err(e) => {
                return Err(e);
            },
        };
        if arg != Token::Identifier {
            return Err(());
        }
        let name_x00: [u8; 4] = [0x78, 0x30, 0x30, 0];
        assert(name_x00@.drop_last() =~= device_text(DeviceName::X00));
        let name_x01: [u8; 4] = [0x78, 0x30, 0x31, 0];
        assert(name_x01@.drop_last() =~= device_text(DeviceName::X01));
        let name_x02: [u8; 4] = [0x78, 0x30, 0x32, 0];
        assert(name_x02@.drop_last() =~= device_text(DeviceName::X02));
        let name_x04: [u8; 4] = [0x78, 0x30, 0x34, 0];
        assert(name_x04@.drop_last() =~= device_text(DeviceName::X04));
        let name_x08: [u8; 4] = [0x78, 0x30, 0x38, 0];
        assert(name_x08@.drop_last() =~= device_text(DeviceName::X08));
        let name_x16: [u8; 4] = [0x78, 0x31, 0x36, 0];
        assert(name_x16@.drop_last() =~= device_text(DeviceName::X16));
        let name_x32: [u8; 4] = [0x78, 0x33, 0x32, 0];
        assert(name_x32@.drop_last() =~= device_text(DeviceName::X32));
        let name_x64: [u8; 4] = [0x78, 0x36, 0x34, 0];
        assert(name_x64@.drop_last() =~= device_text(DeviceName::X64));
        let name_x128: [u8; 5] = [0x78, 0x31, 0x32, 0x38, 0];
        assert(name_x128@.drop_last() =~= device_text(DeviceName::X128));
        let name_x256: [u8; 5] = [0x78, 0x32, 0x35, 0x36, 0];
        assert(name_x256@.drop_last() =~= device_text(DeviceName::X256));
        let name_x512: [u8; 5] = [0x78, 0x35, 0x31, 0x32, 0];
        assert(name_x512@.drop_last() =~= device_text(DeviceName::X512));
        let name_xm01: [u8; 5] = [0x78, 0x6D, 0x30, 0x31, 0];
        assert(name_xm01@.drop_last() =~= device_text(DeviceName::XM01));
        let name_xm02: [u8; 5] = [0x78, 0x6D, 0x30, 0x32, 0];
        assert(name_xm02@.drop_last() =~= device_text(DeviceName::XM02));
        if self.text_is(&name_x00) {
            Ok(DeviceName::X00)
        } else if self.text_is(&name_x01) {
            Ok(DeviceName::X01)
        } else if self.text_is(&name_x02) {
            Ok(DeviceName::X02)
        } else if self.text_is(&name_x04) {
            Ok(DeviceName::X04)
        } else if self.text_is(&name_x08) {
            Ok(DeviceName::X08)
        } else if self.text_is(&name_x16) {
            Ok(DeviceName::X16)
        } else if self.text_is(&name_x32) {
            Ok(DeviceName::X32)
        } else if self.text_is(&name_x64) {
            Ok(DeviceName::X64)
        } else if self.text_is(&name_x128) {
            Ok(DeviceName::X128)
        } else if self.text_is(&name_x256) {
            Ok(DeviceName::X256)
        } else if self.text_is(&name_x512) {
            Ok(DeviceName::X512)
        } else if self.text_is(&name_xm01) {
            Ok(DeviceName::XM01)
        } else if self.text_is(&name_xm02) {
            Ok(DeviceName::XM02)
        } else {
            Err(())
        }
    }

    fn parse_read_byte(&mut self) -> (r: Result<Command, ()>)
        requires
            old(self).wf(),
        ensures
            final(self).wf(),
            old(self).bytes().is_prefix_of(final(self).bytes()),
            old(self).tokens().is_prefix_of(final(self).tokens()),
            outcome_matches(r, read_byte_verdict(new_tokens(old(self).tokens(), final(self).tokens()))),
            new_tokens(old(self).tokens(), final(self).tokens()).len() > 0 ==> read_byte_verdict(
                new_tokens(old(self).tokens(), final(self).tokens()).drop_last(),
            ) == Verdict::Pending,
            (r is Err && (read_byte_verdict(new_tokens(old(self).tokens(), final(self).tokens())) is Pending))
                ==> final(self).source().stream().len() == 0,
            (r is Ok || (read_byte_verdict(new_tokens(old(self).tokens(), final(self).tokens())) is Rejected))
                ==> final(self).last_byte_ended_token(),
            final(self).origin() == old(self).origin(),
            r is Ok ==> final(self).scanner_model().state == ScannerState::Initial,
    {
        let ghost t0 = self.tokens();
        let addr = match self.parse_address() {
            Ok(a) => a,
            Err(e) => {
                proof {
                    if self.tokens() == t0 {
                        lemma_new_none(t0);
                    } else {
                        lemma_new_one(t0, self.tokens());
                    }
                }
                return Err(e);
            },
        };
        let ghost t1 = self.tokens();
        let ghost b1 = self.bytes();
        let fin = match self.get_token() {
            Ok(t) => t,
            Err(e) => {
                proof {
                    lemma_new_one(t0, t1);
                }
                return Err(e);
            },
        };
        proof {
            lemma_new_two(t0, t1, self.tokens());
            lemma_prefix_trans(old(self).bytes(), b1, self.bytes());
        }
        if fin == Token::Finish {
            Ok(Command::ReadByte(addr))
        } else {
            Err(())
        }
    }

    fn parse_write_byte(&mut self) -> (r: Result<Command, ()>)
        requires
            old(self).wf(),
        ensures
            final(self).wf(),
            old(self).bytes().is_prefix_of(final(self).bytes()),
            old(self).tokens().is_prefix_of(final(self).tokens()),
            outcome_matches(r, write_byte_verdict(new_tokens(old(self).tokens(), final(self).tokens()))),
            new_tokens(old(self).tokens(), final(self).tokens()).len() > 0 ==> write_byte_verdict(
                new_tokens(old(self).tokens(), final(self).tokens()).drop_last(),
            ) == Verdict::Pending,
            (r is Err && (write_byte_verdict(new_tokens(old(self).tokens(), final(self).tokens())) is Pending))
                ==> final(self).source().stream().len() == 0,
            (r is Ok || (write_byte_verdict(new_tokens(old(self).tokens(), final(self).tokens())) is Rejected))
                ==> final(self).last_byte_ended_token(),
            final(self).origin() == old(self).origin(),
            r is Ok ==> final(self).scanner_model().state == ScannerState::Initial,
    {
        let ghost t0 = self.tokens();
        let addr = match self.parse_address() {
            Ok(a) => a,
            Err(e) => {
                proof {
                    if self.tokens() == t0 {
                        lemma_new_none(t0);
                    } else {
                        lemma_new_one(t0, self.tokens());
                    }
                }
                return Err(e);
            },
        };
        let ghost t1 = self.tokens();
        let ghost b1 = self.bytes();
        let data = match self.parse_data() {
            Ok(v) => v,
            Err(e) => {
                proof {
                    lemma_prefix_trans(old(self).bytes(), b1, self.bytes());
                    if self.tokens() == t1 {
                        lemma_new_one(t0, t1);
                    } else {
                        lemma_new_two(t0, t1, self.tokens());
                    }
                }
                return Err(e);
            },
        };
        let ghost t2 = self.tokens();
        let ghost b2 = self.bytes();
        proof {
            lemma_prefix_trans(old(self).bytes(), b1, b2);
        }
        let fin = match self.get_token() {
            Ok(t) => t,
            Err(e) => {
                proof {
                    lemma_new_two(t0, t1, t2);
                }
                return Err(e);
            },
        };
        proof {
            lemma_new_three(t0, t1, t2, self.tokens());
            lemma_prefix_trans(old(self).bytes(), b2, self.bytes());
        }
        if fin == Token::Finish {
            Ok(Command::WriteByte(addr, data))
        } else {
            Err(())
        }
    }

    fn parse_read_data(&mut self) -> (r: Result<Command, ()>)
        requires
            old(self).wf(),
        ensures
            final(self).wf(),
            old(self).bytes().is_prefix_of(final(self).bytes()),
            old(self).tokens().is_prefix_of(final(self).tokens()),
            outcome_matches(r, read_data_verdict(new_tokens(old(self).tokens(), final(self).tokens()))),
            new_tokens(old(self).tokens(), final(self).tokens()).len() > 0 ==> read_data_verdict(
                new_tokens(old(self).tokens(), final(self).tokens()).drop_last(),
            ) == Verdict::Pending,
            (r is Err && (read_data_verdict(new_tokens(old(self).tokens(), final(self).tokens())) is Pending))
                ==> final(self).source().stream().len() == 0,
            (r is Ok || (read_data_verdict(new_tokens(old(self).tokens(), final(self).tokens())) is Rejected))
                ==> final(self).last_byte_ended_token(),
            final(self).origin() == old(self).origin(),
            r is Ok ==> final(self).scanner_model().state == ScannerState::Initial,
    {
        let ghost t0 = self.tokens();
        let addr = match self.parse_address() {
            Ok(a) => a,
            Err(e) => {
                proof {
                    if self.tokens() == t0 {
                        lemma_new_none(t0);
                    } else {
                        lemma_new_one(t0, self.tokens());
                    }
                }
                return Err(e);
            },
        };
        let ghost t1 = self.tokens();
        let ghost b1 = self.bytes();
        let len = match self.parse_length() {
            Ok(v) => v,
            Err(e) => {
                proof {
                    lemma_prefix_trans(old(self).bytes(), b1, self.bytes());
                    if self.tokens() == t1 {
                        lemma_new_one(t0, t1);
                    } else {
                        lemma_new_two(t0, t1, self.tokens());
                    }
                }
                return Err(e);
            },
        };
        let ghost t2 = self.tokens();
        let ghost b2 = self.bytes();
        proof {
            lemma_prefix_trans(old(self).bytes(), b1, b2);
        }
        let fin = match self.get_token() {
            Ok(t) => t,
            Err(e) => {
                proof {
                    lemma_new_two(t0, t1, t2);
                }
                return Err(e);
            },
        };
        proof {
            lemma_new_three(t0, t1, t2, self.tokens());
            lemma_prefix_trans(old(self).bytes(), b2, self.bytes());
        }
        if fin == Token::Finish {
            Ok(Command::ReadData(addr, len))
        } else {
            Err(())
        }
    }

    fn parse_write_page(&mut self) -> (r: Result<Command, ()>)
        requires
            old(self).wf(),
        ensures
            final(self).wf(),
            old(self).bytes().is_prefix_of(final(self).bytes()),
            old(self).tokens().is_prefix_of(final(self).tokens()),
            outcome_matches(r, write_page_verdict(new_tokens(old(self).tokens(), final(self).tokens()))),
            new_tokens(old(self).tokens(), final(self).tokens()).len() > 0 ==> write_page_verdict(
                new_tokens(old(self).tokens(), final(self).tokens()).drop_last(),
            ) == Verdict::Pending,
            (r is Err && (write_page_verdict(new_tokens(old(self).tokens(), final(self).tokens())) is Pending))
                ==> final(self).source().stream().len() == 0,
            (r is Ok || (write_page_verdict(new_tokens(old(self).tokens(), final(self).tokens())) is Rejected))
                ==> final(self).last_byte_ended_token(),
            final(self).origin() == old(self).origin(),
            r is Ok ==> final(self).scanner_model().state == ScannerState::Initial,
    {
        let ghost t0 = self.tokens();
        let page = match self.parse_page() {
            Ok(a) => a,
            Err(e) => {
                proof {
                    if self.tokens() == t0 {
                        lemma_new_none(t0);
                    } else {
                        lemma_new_one(t0, self.tokens());
                    }
                }
                return Err(e);
            },
        };
        let ghost t1 = self.tokens();
        let ghost b1 = self.bytes();
        let fin = match self.get_token() {
            Ok(t) => t,
            Err(e) => {
                proof {
                    lemma_new_one(t0, t1);
                }
                return Err(e);
            },
        };
        proof {
            lemma_new_two(t0, t1, self.tokens());
            lemma_prefix_trans(old(self).bytes(), b1, self.bytes());
        }
        if fin == Token::Finish {
            Ok(Command::WritePage(page))
        } else {
            Err(())
        }
    }

    fn parse_set_device(&mut self) -> (r: Result<Command, ()>)
        requires
            old(self).wf(),
        ensures
            final(self).wf(),
            old(self).bytes().is_prefix_of(final(self).bytes()),
            old(self).tokens().is_prefix_of(final(self).tokens()),
            outcome_matches(r, set_device_verdict(new_tokens(old(self).tokens(), final(self).tokens()))),
            new_tokens(old(self).tokens(), final(self).tokens()).len() > 0 ==> set_device_verdict(
                new_tokens(old(self).tokens(), final(self).tokens()).drop_last(),
            ) == Verdict::Pending,
            (r is Err && (set_device_verdict(new_tokens(old(self).tokens(), final(self).tokens())) is Pending))
                ==> final(self).source().stream().len() == 0,
            (r is Ok || (set_device_verdict(new_tokens(old(self).tokens(), final(self).tokens())) is Rejected))
                ==> final(self).last_byte_ended_token(),
            final(self).origin() == old(self).origin(),
            r is Ok ==> final(self).scanner_model().state == ScannerState::Initial,
    {
        let ghost t0 = self.tokens();
        let device_name = match self.parse_device_name() {
            Ok(a) => a,
            Err(e) => {
                proof {
                    if self.tokens() == t0 {
                        lemma_new_none(t0);
                    } else {
                        lemma_new_one(t0, self.tokens());
                    }
                }
                return Err(e);
            },
        };
        let ghost t1 = self.tokens();
        let ghost b1 = self.bytes();
        let fin = match self.get_token() {
            Ok(t) => t,
            Err(e) => {
                proof {
                    lemma_new_one(t0, t1);
                }
                return Err(e);
            },
        };
        proof {
            lemma_new_two(t0, t1, self.tokens());
            lemma_prefix_trans(old(self).bytes(), b1, self.bytes());
        }
        if fin == Token::Finish {
            Ok(Command::SetDevice(device_name))
        } else {
            Err(())
        }
    }

    /// Reads one command line from the reader's stream. The result agrees
    /// with the grammar on the tokens of the bytes read, and reading stops at
    /// the byte that completes the deciding token; it fails while still
    /// waiting only once the stream is used up. A stream that starts with a
    /// well-formed line gives that line's command and loses exactly that
    /// line. A failure leaves the scanner wherever it stopped; a caller that
    /// goes on must first bring the source to the next line boundary itself.
    pub fn parse_command(&mut self) -> (r: Result<Command, ()>)
        requires
            old(self).wf(),
        ensures
            final(self).wf(),
            old(self).bytes().is_prefix_of(final(self).bytes()),
            old(self).tokens().is_prefix_of(final(self).tokens()),
            outcome_matches(r, verdict(new_tokens(old(self).tokens(), final(self).tokens()))),
            new_tokens(old(self).tokens(), final(self).tokens()).len() > 0 ==> verdict(
                new_tokens(old(self).tokens(), final(self).tokens()).drop_last(),
            ) == Verdict::Pending,
            (r is Err && (verdict(new_tokens(old(self).tokens(), final(self).tokens())) is Pending))
                ==> final(self).source().stream().len() == 0,
            (r is Ok || (verdict(new_tokens(old(self).tokens(), final(self).tokens())) is Rejected))
                ==> final(self).last_byte_ended_token(),
            old(self).source().stream() == final(self).bytes().skip(old(self).bytes().len() as int)
                + final(self).source().stream(),
            final(self).origin() == old(self).origin(),
            r is Ok ==> final(self).scanner_model().state == ScannerState::Initial,
            forall|c: Command, x: WrittenNumber, y: WrittenNumber|
                old(self).scanner_model().state == ScannerState::Initial && writes_arguments(c, x, y)
                    && (#[trigger] command_line(c, x, y)).is_prefix_of(old(self).source().stream())
                    ==> r == Ok::<Command, ()>(c) && final(self).source().stream() == old(
                    self,
                ).source().stream().skip(command_line(c, x, y).len() as int),
    {
        let ghost t0 = self.tokens();
        let r = match self.get_token() {
            Err(e) => {
                proof {
                    lemma_new_none(t0);
                }
                Err(e)
            },
            Ok(cmd) => {
                let ghost t1 = self.tokens();
                let ghost b1 = self.bytes();
                proof {
                    lemma_new_one(t0, t1);
                }
                if cmd != Token::Identifier {
                    Err(())
                } else {
                    let kw_rb: [u8; 3] = [0x72, 0x62, 0];
                    let kw_wb: [u8; 3] = [0x77, 0x62, 0];
                    let kw_rd: [u8; 3] = [0x72, 0x64, 0];
                    let kw_wp: [u8; 3] = [0x77, 0x70, 0];
                    let kw_sd: [u8; 3] = [0x73, 0x64, 0];
                    assert(kw_rb@.drop_last() =~= keyword_read_byte());
                    assert(kw_wb@.drop_last() =~= keyword_write_byte());
                    assert(kw_rd@.drop_last() =~= keyword_read_data());
                    assert(kw_wp@.drop_last() =~= keyword_write_page());
                    assert(kw_sd@.drop_last() =~= keyword_set_device());
                    let r = if self.text_is(&kw_rb) {
                        self.parse_read_byte()
                    } else if self.text_is(&kw_wb) {
                        self.parse_write_byte()
                    } else if self.text_is(&kw_rd) {
                        self.parse_read_data()
                    } else if self.text_is(&kw_wp) {
                        self.parse_write_page()
                    } else if self.text_is(&kw_sd) {
                        self.parse_set_device()
                    } else {
                        proof {
                            lemma_new_none(t1);
                            assert(b1 =~= b1.subrange(0, b1.len() as int));
                        }
                        Err(())
                    };
                    proof {
                        lemma_one_then_rest(t0, t1, self.tokens());
                        lemma_prefix_trans(old(self).bytes(), b1, self.bytes());
                    }
                    r
                }
            },
        };
        proof {
            lemma_stream_taken(*old(self), *self);
            assert forall|c: Command, x: WrittenNumber, y: WrittenNumber|
                old(self).scanner_model().state == ScannerState::Initial && writes_arguments(c, x, y)
                    && (#[trigger] command_line(c, x, y)).is_prefix_of(
                    old(self).source().stream(),
                ) implies r == Ok::<Command, ()>(c) && final(self).source().stream() == old(
                self,
            ).source().stream().skip(command_line(c, x, y).len() as int) by {
                lemma_parse_reads_line(*old(self), *self, r, c, x, y);
            }
        }
        r
    }
}

} // verus!
