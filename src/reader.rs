use vstd::prelude::*;

verus! {

/// A source of bytes: the next byte, or `None` once the source is exhausted
/// (or failed; the two are not told apart).
pub trait Reader {
    /// The bytes that the source still has to give, next one first.
    spec fn stream(&self) -> Seq<u8>;

    /// Takes the next byte off the stream; `None` exactly when it is empty.
    fn read(&mut self) -> (r: Option<u8>)
        ensures
            old(self).stream().len() == 0 ==> (r is None) && final(self).stream() == old(self).stream(),
            old(self).stream().len() > 0 ==> r == Some(old(self).stream()[0]) && final(self).stream()
                == old(self).stream().drop_first(),
    ;
}

/// Holds a source of bytes of std's I/O; it reads from byte slices.
pub struct StandardReader<R> {
    reader: R,
}

impl<R> StandardReader<R> {
    pub closed spec fn inner(&self) -> R {
        self.reader
    }

    pub fn new(reader: R) -> (r: StandardReader<R>)
        ensures
            r.inner() == reader,
    {
        StandardReader { reader }
    }

    pub fn destroy(self) -> (r: R)
        ensures
            r == self.inner(),
    {
        self.reader
    }
}

/// Relies on std::io::Read::read_exact for byte slices: reading copies from
/// the front of the slice and moves it past what was read; an empty slice
/// reports the end of its input and stays empty.
#[verifier::external_body]
fn read_exact_byte(reader: &mut &[u8]) -> (r: Option<u8>)
    ensures
        old(reader)@.len() == 0 ==> (r is None) && final(reader)@ == old(reader)@,
        old(reader)@.len() > 0 ==> r == Some(old(reader)@[0]) && final(reader)@ == old(reader)@.drop_first(),
{
    let mut c: [u8; 1] = [0];
    if std::io::Read::read_exact(reader, &mut c).is_err() {
        return None;
    }
    Some(c[0])
}

impl<'a> StandardReader<&'a [u8]> {
    /// The next byte of the slice, or `None` once it is used up.
    pub fn read_byte(&mut self) -> (r: Option<u8>)
        ensures
            old(self).inner()@.len() == 0 ==> (r is None) && final(self).inner()@ == old(self).inner()@,
            old(self).inner()@.len() > 0 ==> r == Some(old(self).inner()@[0]) && final(self).inner()@ == old(self).inner()@.drop_first(),
    {
        read_exact_byte(&mut self.reader)
    }
}

impl<'a> Reader for StandardReader<&'a [u8]> {
    open spec fn stream(&self) -> Seq<u8> {
        self.inner()@
    }

    fn read(&mut self) -> (r: Option<u8>) {
        self.read_byte()
    }
}

/// Most bytes that a `BufferReader` holds.
pub const BUFFER_READER_SIZE: usize = 32;

/// A stack of at most 32 bytes, kept in an `arrayvec::ArrayVec<[u8; 32]>`
/// without allocating.
#[verifier::external_body]
pub struct ByteStack {
    items: arrayvec::ArrayVec<[u8; 32]>,
}

/// The items of a byte stack, from the bottom to the top.
pub uninterp spec fn stack_items(v: ByteStack) -> Seq<u8>;

/// Relies on arrayvec::ArrayVec::new: the vector starts empty.
#[verifier::external_body]
fn stack_new() -> (r: ByteStack)
    ensures
        stack_items(r) == Seq::<u8>::empty(),
{
    ByteStack { items: arrayvec::ArrayVec::new() }
}

/// Relies on arrayvec::ArrayVec::push: below capacity (32) the byte goes on
/// top; at capacity it would panic, which `requires` rules out.
#[verifier::external_body]
fn stack_push(v: &mut ByteStack, c: u8)
    requires
        stack_items(*old(v)).len() < BUFFER_READER_SIZE,
    ensures
        stack_items(*final(v)) == stack_items(*old(v)).push(c),
{
    v.items.push(c)
}

/// Relies on arrayvec::ArrayVec::pop: takes the top byte off, or gives
/// `None` and changes nothing when the vector is empty.
#[verifier::external_body]
fn stack_pop(v: &mut ByteStack) -> (r: Option<u8>)
    ensures
        stack_items(*old(v)).len() == 0 ==> (r is None) && stack_items(*final(v)) == stack_items(
            *old(v),
        ),
        stack_items(*old(v)).len() > 0 ==> r == Some(stack_items(*old(v)).last()) && stack_items(
            *final(v),
        ) == stack_items(*old(v)).drop_last(),
{
    v.items.pop()
}

/// Hands out the bytes of a buffer of at most 32 bytes, first to last,
/// without allocating.
pub struct BufferReader {
    reader: ByteStack,
}

impl BufferReader {
    /// The bytes still to be read, next one first.
    pub closed spec fn pending(&self) -> Seq<u8> {
        stack_items(self.reader).reverse()
    }

    /// Takes a copy of `buffer`; fails if it holds more than 32 bytes.
    pub fn try_new(buffer: &[u8]) -> (r: Result<BufferReader, ()>)
        ensures
            r is Err <==> buffer@.len() > BUFFER_READER_SIZE,
            r matches Ok(b) ==> b.pending() == buffer@,
    {
        if buffer.len() > BUFFER_READER_SIZE {
            return Err(());
        }
        // The stack is filled from the last byte down, so that popping it
        // gives the bytes in their order.
        let mut av = stack_new();
        let n = buffer.len();
        let mut i: usize = 0;
        while i < n
            invariant
                n == buffer@.len(),
                n <= BUFFER_READER_SIZE,
                i <= n,
                stack_items(av) =~= Seq::new(i as nat, |k: int| buffer@[n - 1 - k]),
            decreases n - i,
        {
            stack_push(&mut av, buffer[n - 1 - i]);
            i = i + 1;
        }
        let r = BufferReader { reader: av };
        assert(r.pending() =~= buffer@);
        Ok(r)
    }
}

impl BufferReader {
    /// The next pending byte, or `None` once all have been read.
    pub fn read_byte(&mut self) -> (r: Option<u8>)
        ensures
            old(self).pending().len() == 0 ==> (r is None) && final(self).pending() == old(self).pending(),
            old(self).pending().len() > 0 ==> r == Some(old(self).pending()[0]) && final(self).pending() == old(self).pending().drop_first(),
    {
        let ghost items = stack_items(self.reader);
        let r = stack_pop(&mut self.reader);
        proof {
            if items.len() > 0 {
                assert(items.reverse()[0] == items.last());
                assert(items.drop_last().reverse() =~= items.reverse().drop_first());
            }
        }
        r
    }
}

impl Reader for BufferReader {
    open spec fn stream(&self) -> Seq<u8> {
        self.pending()
    }

    fn read(&mut self) -> (r: Option<u8>) {
        self.read_byte()
    }
}

} // verus!
