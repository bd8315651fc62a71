use cmdparse::parser::{Command, Parser};
use cmdparse::reader::{BufferReader, Reader, StandardReader};

#[test]
fn buffer_reader_gives_bytes_in_order() {
    let mut reader = BufferReader::try_new(b"abc").unwrap();
    assert_eq!(reader.read(), Some(b'a'));
    assert_eq!(reader.read(), Some(b'b'));
    assert_eq!(reader.read(), Some(b'c'));
    assert_eq!(reader.read(), None);
    assert_eq!(reader.read(), None);
}

#[test]
fn buffer_reader_capacity() {
    assert!(BufferReader::try_new(&[b' '; 32]).is_ok());
    assert!(BufferReader::try_new(&[b' '; 33]).is_err());
    let mut empty = BufferReader::try_new(&[]).unwrap();
    assert_eq!(empty.read(), None);
}

#[test]
fn buffer_reader_feeds_parser() {
    let reader = BufferReader::try_new(b"wb 0x10 -128\r\n").unwrap();
    let mut parser = Parser::new(reader);
    assert_eq!(parser.parse_command(), Ok(Command::WriteByte(0x10, 0x80)));
}

#[test]
fn standard_reader_reads_slice() {
    let mut reader = StandardReader::new(&b"xy"[..]);
    assert_eq!(reader.read(), Some(b'x'));
    assert_eq!(reader.read(), Some(b'y'));
    assert_eq!(reader.read(), None);
    assert_eq!(reader.destroy().len(), 0);
}

#[test]
fn buffer_reader_read_byte_in_order() {
    let mut reader = BufferReader::try_new(b"rb\r\n").unwrap();
    assert_eq!(reader.read_byte(), Some(b'r'));
    assert_eq!(reader.read_byte(), Some(b'b'));
    assert_eq!(reader.read_byte(), Some(b'\r'));
    assert_eq!(reader.read_byte(), Some(b'\n'));
    assert_eq!(reader.read_byte(), None);
}

#[test]
fn standard_reader_read_byte_advances() {
    let mut reader = StandardReader::new(&b"ab"[..]);
    assert_eq!(reader.read_byte(), Some(b'a'));
    assert_eq!(reader.read_byte(), Some(b'b'));
    assert_eq!(reader.read_byte(), None);
    assert_eq!(reader.read_byte(), None);
}
