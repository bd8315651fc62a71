use cmdparse::parser::{Command, DeviceName, Parser};
use cmdparse::reader::StandardReader;

fn parse(line: &str) -> Result<Command, ()> {
    let reader = StandardReader::new(line.as_bytes());
    let mut parser = Parser::new(reader);
    parser.parse_command()
}

#[test]
fn parse_read_byte() {
    let command = "rb 0x000E3B41\r\n";
    let reader = StandardReader::new(command.as_bytes());
    let mut parser = Parser::new(reader);
    let res = parser.parse_command();

    assert!(res.is_ok());
    assert_eq!(res.unwrap(), Command::ReadByte(0x000E3B41));
}

#[test]
fn parse_write_byte() {
    let command = "wb 0x00012000 0x42\r\n";
    let reader = StandardReader::new(command.as_bytes());
    let mut parser = Parser::new(reader);
    let res = parser.parse_command();

    assert!(res.is_ok());
    assert_eq!(res.unwrap(), Command::WriteByte(0x00012000, 0x42));
}

#[test]
fn parse_read_data() {
    let command = "rd 0x00000010 32\r\n";
    let reader = StandardReader::new(command.as_bytes());
    let mut parser = Parser::new(reader);
    let res = parser.parse_command();

    assert!(res.is_ok());
    assert_eq!(res.unwrap(), Command::ReadData(0x00000010, 32));
}

#[test]
fn parse_write_page() {
    let command = "wp 0x0F\r\n";
    let reader = StandardReader::new(command.as_bytes());
    let mut parser = Parser::new(reader);
    let res = parser.parse_command();

    assert!(res.is_ok());
    assert_eq!(res.unwrap(), Command::WritePage(0x0F));
}

#[test]
fn parse_set_device() {
    let command = "sd xm01\r\n";
    let reader = StandardReader::new(command.as_bytes());
    let mut parser = Parser::new(reader);
    let res = parser.parse_command();

    assert!(res.is_ok());
    assert_eq!(res.unwrap(), Command::SetDevice(DeviceName::XM01));
}

#[test]
fn parse_byte_bounds() {
    assert_eq!(parse("wb 1 -128\r\n"), Ok(Command::WriteByte(1, 0x80)));
    assert_eq!(parse("wb 1 255\r\n"), Ok(Command::WriteByte(1, 0xFF)));
    assert_eq!(parse("wb 1 -1\r\n"), Ok(Command::WriteByte(1, 0xFF)));
    assert_eq!(parse("wb 1 -129\r\n"), Err(()));
    assert_eq!(parse("wb 1 256\r\n"), Err(()));
}

#[test]
fn parse_page_bounds() {
    assert_eq!(parse("wp 0\r\n"), Ok(Command::WritePage(0)));
    assert_eq!(parse("wp 1023\r\n"), Ok(Command::WritePage(1023)));
    assert_eq!(parse("wp 1024\r\n"), Err(()));
    assert_eq!(parse("wp -1\r\n"), Err(()));
}

#[test]
fn parse_address_bounds() {
    assert_eq!(parse("rb 0\r\n"), Ok(Command::ReadByte(0)));
    assert_eq!(parse("rb 0x7FFFFFFF\r\n"), Ok(Command::ReadByte(0x7FFF_FFFF)));
    assert_eq!(parse("rb -1\r\n"), Err(()));
    assert_eq!(parse("rd 16 -5\r\n"), Err(()));
}

#[test]
fn parse_rejects_unknown_keyword() {
    assert_eq!(parse("xx 1\r\n"), Err(()));
    assert_eq!(parse("RB 1\r\n"), Err(()));
    assert_eq!(parse("12 1\r\n"), Err(()));
}

#[test]
fn parse_rejects_unknown_device() {
    assert_eq!(parse("sd x03\r\n"), Err(()));
    assert_eq!(parse("sd 5\r\n"), Err(()));
}

#[test]
fn parse_all_devices() {
    let names = [
        ("x00", DeviceName::X00),
        ("x01", DeviceName::X01),
        ("x02", DeviceName::X02),
        ("x04", DeviceName::X04),
        ("x08", DeviceName::X08),
        ("x16", DeviceName::X16),
        ("x32", DeviceName::X32),
        ("x64", DeviceName::X64),
        ("x128", DeviceName::X128),
        ("x256", DeviceName::X256),
        ("x512", DeviceName::X512),
        ("xm01", DeviceName::XM01),
        ("xm02", DeviceName::XM02),
    ];
    for (text, device) in names {
        let line = format!("sd {}\r\n", text);
        assert_eq!(parse(&line), Ok(Command::SetDevice(device)));
    }
}

#[test]
fn parse_rejects_lone_carriage_return() {
    assert_eq!(parse("rb 5\r"), Err(()));
    assert_eq!(parse("rb 5\rx"), Err(()));
    assert_eq!(parse("rb 5\n"), Err(()));
}

#[test]
fn parse_rejects_missing_or_extra_arguments() {
    assert_eq!(parse("rb\r\n"), Err(()));
    assert_eq!(parse("rb 1 2\r\n"), Err(()));
    assert_eq!(parse("wb 1\r\n"), Err(()));
    assert_eq!(parse(""), Err(()));
}

#[test]
fn parse_rejects_overflowing_number() {
    assert_eq!(parse("rb 2147483648\r\n"), Err(()));
    assert_eq!(parse("rb 0x80000000\r\n"), Err(()));
}

#[test]
fn parse_consecutive_lines() {
    let input = "rb 1\r\nwp 2\r\nsd x00\r\n";
    let mut parser = Parser::new(StandardReader::new(input.as_bytes()));
    assert_eq!(parser.parse_command(), Ok(Command::ReadByte(1)));
    assert_eq!(parser.parse_command(), Ok(Command::WritePage(2)));
    assert_eq!(parser.parse_command(), Ok(Command::SetDevice(DeviceName::X00)));
    assert_eq!(parser.parse_command(), Err(()));
    let rest = parser.destroy().destroy();
    assert_eq!(rest.len(), 0);
}

#[test]
fn parse_stops_at_the_deciding_token() {
    let input = "zz 1\r\n";
    let mut parser = Parser::new(StandardReader::new(input.as_bytes()));
    assert_eq!(parser.parse_command(), Err(()));
    let rest = parser.destroy().destroy();
    assert_eq!(rest, "1\r\n".as_bytes());
}

#[test]
fn parse_reads_nothing_past_the_line() {
    let input = "wp 7\r\n  rb 1\r\n";
    let mut parser = Parser::new(StandardReader::new(input.as_bytes()));
    assert_eq!(parser.parse_command(), Ok(Command::WritePage(7)));
    let rest = parser.destroy().destroy();
    assert_eq!(rest, "  rb 1\r\n".as_bytes());
}

#[test]
fn parse_written_number_forms() {
    assert_eq!(parse("rb 0x00ff\r\n"), Ok(Command::ReadByte(255)));
    assert_eq!(parse("rb 0X1\r\n"), Err(()));
    assert_eq!(parse("rd 0d0042 0b0011\r\n"), Ok(Command::ReadData(42, 3)));
    assert_eq!(parse("wb 0o17 -0x80\r\n"), Ok(Command::WriteByte(15, 0x80)));
    assert_eq!(parse("wp 01023\r\n"), Ok(Command::WritePage(1023)));
}
