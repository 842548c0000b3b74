use gopher::protocol::{DirEntity, DirEntityKind, KnownDirEntity, ParseError, Parser};

fn fixture(bytes: &[u8]) -> Parser {
    Parser::new(bytes.to_vec())
}

const DATA: &[u8] = b"\
0About internet Gopher\tStuff:About us\trawBits.micro.umn.edu\t70\r\n\
1Around University of Minnesota\tZ,5692,AUM\tunderdog.micro.umn.edu\t70\r\n\
1Microcomputer News & Prices\tPrices/\tpserver.bookstore.umn.edu\t70\r\n\
1Courses, Schedules, Calendars\t\tevents.ais.umn.edu\t9120\r\n\
1Student-Staff Directories\t\tuinfo.ais.umn.edu\t70\r\n\
1Departmental Publications\tStuff:DP:\trawBits.micro.umn.edu\t70\r\n\
.";

#[test]
fn test_field() {
    let line = b"1Courses, Schedules, Calendars\t\tevents.ais.umn.edu\t9120\r\n";
    let mut parser = fixture(line);

    assert_eq!(parser.parse_field(), Ok(b"1Courses, Schedules, Calendars".to_vec()));
    assert_eq!(parser.parse_field(), Ok(b"".to_vec()));
    assert_eq!(parser.parse_field(), Ok(b"events.ais.umn.edu".to_vec()));
    assert_eq!(parser.parse_field(), Ok(b"9120".to_vec()));
}

#[test]
fn test_direntity() {
    let mut parser = fixture(DATA);

    let item = DirEntity {
        kind: DirEntityKind::Known(KnownDirEntity::File),
        display: String::from("About internet Gopher"),
        selector: b"Stuff:About us".to_vec(),
        host: String::from("rawBits.micro.umn.edu"),
        port: 70,
    };
    assert_eq!(parser.parse_direntity(), Ok(item));

    let item = DirEntity {
        kind: DirEntityKind::Known(KnownDirEntity::Dir),
        display: String::from("Around University of Minnesota"),
        selector: b"Z,5692,AUM".to_vec(),
        host: String::from("underdog.micro.umn.edu"),
        port: 70,
    };
    assert_eq!(parser.parse_direntity(), Ok(item));
}

#[test]
fn test_menu() {
    let mut parser = fixture(DATA);

    let items = parser.parse_menu().unwrap();
    assert_eq!(items.len(), 6);

    let item = DirEntity {
        kind: DirEntityKind::Known(KnownDirEntity::File),
        display: String::from("About internet Gopher"),
        selector: b"Stuff:About us".to_vec(),
        host: String::from("rawBits.micro.umn.edu"),
        port: 70,
    };
    assert_eq!(items[0], item);

    let item = DirEntity {
        kind: DirEntityKind::Known(KnownDirEntity::Dir),
        display: String::from("Around University of Minnesota"),
        selector: b"Z,5692,AUM".to_vec(),
        host: String::from("underdog.micro.umn.edu"),
        port: 70,
    };
    assert_eq!(items[1], item);
}

#[test]
fn classify_known_codes() {
    let table: [(u8, KnownDirEntity); 16] = [
        (b'0', KnownDirEntity::File),
        (b'1', KnownDirEntity::Dir),
        (b'2', KnownDirEntity::CsoQuery),
        (b'3', KnownDirEntity::Error),
        (b'4', KnownDirEntity::MacBinHex),
        (b'5', KnownDirEntity::DosBin),
        (b'6', KnownDirEntity::Uuenc),
        (b'7', KnownDirEntity::SearchQuery),
        (b'8', KnownDirEntity::Telnet),
        (b'9', KnownDirEntity::Binary),
        (b'+', KnownDirEntity::RedundantServer),
        (b'T', KnownDirEntity::Tn3270),
        (b'g', KnownDirEntity::Gif),
        (b'h', KnownDirEntity::Html),
        (b'i', KnownDirEntity::Info),
        (b'I', KnownDirEntity::Image),
    ];
    for (code, kind) in table {
        assert_eq!(DirEntityKind::from_byte(code), DirEntityKind::Known(kind));
    }
}

#[test]
fn classify_unknown_bytes() {
    for byte in 0..=255u8 {
        let known = matches!(
            byte,
            b'0' | b'1'
                | b'2'
                | b'3'
                | b'4'
                | b'5'
                | b'6'
                | b'7'
                | b'8'
                | b'9'
                | b'+'
                | b'T'
                | b'g'
                | b'h'
                | b'i'
                | b'I'
        );
        if !known {
            assert_eq!(DirEntityKind::from_byte(byte), DirEntityKind::Unknown(byte));
        }
    }
}

#[test]
fn reparse_yields_identical_records() {
    let mut first = fixture(DATA);
    let mut second = fixture(DATA);
    assert_eq!(first.parse_menu().unwrap(), second.parse_menu().unwrap());
}

#[test]
fn empty_selector_is_empty_not_error() {
    let mut parser = fixture(b"1Courses, Schedules, Calendars\t\tevents.ais.umn.edu\t9120\r\n.");
    let item = parser.parse_direntity().unwrap();
    assert_eq!(item.selector, Vec::<u8>::new());
    assert_eq!(item.display, "Courses, Schedules, Calendars");
    assert_eq!(item.port, 9120);
}

#[test]
fn sentinel_yields_no_record() {
    let mut parser = fixture(b".\r\n");
    assert_eq!(parser.parse_menu(), Ok(Vec::new()));
}

#[test]
fn trailing_fields_are_skipped() {
    let mut parser = fixture(b"1Extras\tsel\thost.example\t70\tplus-data\tmore\r\n.");
    let item = parser.parse_direntity().unwrap();
    assert_eq!(item.kind, DirEntityKind::Known(KnownDirEntity::Dir));
    assert_eq!(item.host, "host.example");
    assert_eq!(item.port, 70);
}

#[test]
fn lone_cr_is_field_content() {
    let mut parser = fixture(b"ab\rc\tnext\t");
    assert_eq!(parser.parse_field(), Ok(b"ab\rc".to_vec()));
    assert_eq!(parser.parse_field(), Ok(b"next".to_vec()));
}

#[test]
fn nondigit_port_is_invalid_port() {
    let mut parser = fixture(b"0About\tsel\thost.example\tseventy\r\n.");
    assert_eq!(parser.parse_direntity(), Err(ParseError::InvalidPort));
}

#[test]
fn overflowing_port_is_invalid_port() {
    let mut parser = fixture(b"0About\tsel\thost.example\t65536\r\n.");
    assert_eq!(parser.parse_direntity(), Err(ParseError::InvalidPort));
}

#[test]
fn empty_port_is_invalid_port() {
    let mut parser = fixture(b"0About\tsel\thost.example\t\r\n.");
    assert_eq!(parser.parse_direntity(), Err(ParseError::InvalidPort));
}

#[test]
fn leading_zeroes_in_port_are_accepted() {
    let mut parser = fixture(b"0About\tsel\thost.example\t0070\r\n.");
    let item = parser.parse_direntity().unwrap();
    assert_eq!(item.port, 70);
}

#[test]
fn truncated_record_is_end_of_stream() {
    let mut parser = fixture(b"0About internet Gopher\tStuff:About us\trawBits.micro.umn.edu\t70");
    assert_eq!(parser.parse_direntity(), Err(ParseError::UnexpectedEndOfStream));
}

#[test]
fn truncated_menu_returns_no_records() {
    let mut parser = fixture(b"0About\tsel\thost.example\t70\r\n0Another\tsel");
    assert_eq!(parser.parse_menu(), Err(ParseError::UnexpectedEndOfStream));
}

#[test]
fn menu_without_sentinel_is_end_of_stream() {
    let mut parser = fixture(b"0About\tsel\thost.example\t70\r\n");
    assert_eq!(parser.parse_menu(), Err(ParseError::UnexpectedEndOfStream));
}

#[test]
fn non_ascii_display_is_invalid_encoding() {
    let mut parser = fixture(b"0Caf\xc3\xa9\tsel\thost.example\t70\r\n.");
    assert_eq!(parser.parse_direntity(), Err(ParseError::InvalidEncoding));
}

#[test]
fn non_ascii_selector_is_accepted_raw() {
    let mut parser = fixture(b"9binary\t\x00\xff\x80raw\thost.example\t70\r\n.");
    let item = parser.parse_direntity().unwrap();
    assert_eq!(item.selector, b"\x00\xff\x80raw".to_vec());
}

#[test]
fn unknown_kind_record_is_decoded() {
    let mut parser = fixture(b"zMystery\tsel\thost.example\t70\r\n.");
    let item = parser.parse_direntity().unwrap();
    assert_eq!(item.kind, DirEntityKind::Unknown(b'z'));
    assert_eq!(item.display, "Mystery");
}

#[test]
fn bytes_to_string_decodes_ascii() {
    assert_eq!(gopher::protocol::bytes_to_string(b"plain text"), Ok(String::from("plain text")));
    assert_eq!(gopher::protocol::bytes_to_string(b""), Ok(String::new()));
}

#[test]
fn bytes_to_string_rejects_high_bytes() {
    assert_eq!(gopher::protocol::bytes_to_string(b"caf\xe9"), Err(ParseError::InvalidEncoding));
}

#[test]
fn parse_port_exact_values() {
    assert_eq!(gopher::protocol::parse_port(b"9120"), Ok(9120));
    assert_eq!(gopher::protocol::parse_port(b"0"), Ok(0));
    assert_eq!(gopher::protocol::parse_port(b"65535"), Ok(65535));
    assert_eq!(gopher::protocol::parse_port(b"65536"), Err(ParseError::InvalidPort));
    assert_eq!(gopher::protocol::parse_port(b""), Err(ParseError::InvalidPort));
    assert_eq!(gopher::protocol::parse_port(b"7a"), Err(ParseError::InvalidPort));
}
