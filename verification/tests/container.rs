use wasm_source_map::error::ReaderError;
use wasm_source_map::leb128::read_uleb128;
use wasm_source_map::wasm::{parse_module, parse_sections, Error, SectionKind};

fn header() -> Vec<u8> {
    vec![0x00, 0x61, 0x73, 0x6d, 0x01, 0x00, 0x00, 0x00]
}

fn custom(name: &str, payload: &[u8]) -> Vec<u8> {
    let mut body = vec![name.len() as u8];
    body.extend_from_slice(name.as_bytes());
    body.extend_from_slice(payload);
    let mut section = vec![0x00, body.len() as u8];
    section.extend_from_slice(&body);
    section
}

fn standard(id: u8, payload: &[u8]) -> Vec<u8> {
    let mut section = if id < 0x80 { vec![id] } else { vec![id, 0x01] };
    section.push(payload.len() as u8);
    section.extend_from_slice(payload);
    section
}

#[test]
fn uleb128_reads_one_byte() {
    assert!(matches!(read_uleb128(&[0x00], 0, 1), Ok((0, 1))));
    assert!(matches!(read_uleb128(&[0x7f], 0, 1), Ok((127, 1))));
}

#[test]
fn uleb128_reads_several_bytes() {
    assert!(matches!(read_uleb128(&[0xe5, 0x8e, 0x26], 0, 3), Ok((624485, 3))));
    assert!(matches!(read_uleb128(&[0x80, 0x01], 0, 2), Ok((128, 2))));
    assert!(matches!(read_uleb128(&[0xff, 0xff, 0x03, 0xaa], 0, 4), Ok((65535, 3))));
}

#[test]
fn uleb128_reads_from_a_position() {
    assert!(matches!(read_uleb128(&[0xaa, 0x80, 0x01, 0x05], 1, 4), Ok((128, 3))));
    assert!(matches!(read_uleb128(&[0xaa, 0x80, 0x01, 0x05], 3, 4), Ok((5, 4))));
}

#[test]
fn uleb128_keeps_leading_zero_groups() {
    assert!(matches!(read_uleb128(&[0x80, 0x80, 0x00], 0, 3), Ok((0, 3))));
}

#[test]
fn uleb128_reads_the_greatest_number() {
    let bytes = [0xff, 0xff, 0xff, 0xff, 0xff, 0xff, 0xff, 0xff, 0xff, 0x01];
    assert!(matches!(read_uleb128(&bytes, 0, 10), Ok((u64::MAX, 10))));
    let high = [0x80, 0x80, 0x80, 0x80, 0x80, 0x80, 0x80, 0x80, 0x80, 0x01];
    assert!(matches!(read_uleb128(&high, 0, 10), Ok((0x8000_0000_0000_0000, 10))));
    let zero = [0x80, 0x80, 0x80, 0x80, 0x80, 0x80, 0x80, 0x80, 0x80, 0x00];
    assert!(matches!(read_uleb128(&zero, 0, 10), Ok((0, 10))));
}

#[test]
fn uleb128_refuses_what_does_not_fit() {
    let bytes = [0xff, 0xff, 0xff, 0xff, 0xff, 0xff, 0xff, 0xff, 0xff, 0x02];
    assert!(matches!(read_uleb128(&bytes, 0, 10), Err(ReaderError::BadUnsignedLeb128)));
    let longer = [0x80, 0x80, 0x80, 0x80, 0x80, 0x80, 0x80, 0x80, 0x80, 0x80, 0x00];
    assert!(matches!(read_uleb128(&longer, 0, 11), Err(ReaderError::BadUnsignedLeb128)));
}

#[test]
fn uleb128_stops_at_the_end() {
    assert!(matches!(read_uleb128(&[], 0, 0), Err(ReaderError::UnexpectedEof)));
    assert!(matches!(read_uleb128(&[0x80], 0, 1), Err(ReaderError::UnexpectedEof)));
    assert!(matches!(read_uleb128(&[0x80, 0x01], 0, 1), Err(ReaderError::UnexpectedEof)));
    assert!(matches!(read_uleb128(&[0x01], 0, 5), Err(ReaderError::UnexpectedEof)));
    assert!(matches!(read_uleb128(&[0x01], 3, 1), Err(ReaderError::UnexpectedEof)));
}

#[test]
fn malformed_magic_is_invalid_magic() {
    let r = parse_sections(&[0x00, 0x61, 0x73, 0x6e, 0x01, 0x00, 0x00, 0x00]);
    assert!(matches!(r, Err(Error::InvalidMagic)));
    let r = parse_sections(b"wasm\x01\x00\x00\x00");
    assert!(matches!(r, Err(Error::InvalidMagic)));
    let r = parse_sections(b"\x7fELF");
    assert!(matches!(r, Err(Error::InvalidMagic)));
}

#[test]
fn input_shorter_than_the_magic_is_invalid_magic() {
    assert!(matches!(parse_sections(&[]), Err(Error::InvalidMagic)));
    assert!(matches!(parse_sections(&[0x00]), Err(Error::InvalidMagic)));
    assert!(matches!(parse_sections(&[0x00, 0x61, 0x73]), Err(Error::InvalidMagic)));
    assert!(matches!(parse_module(&[0x00, 0x61, 0x73]), Err(Error::InvalidMagic)));
}

#[test]
fn input_that_ends_in_the_version_is_unexpected_eof() {
    assert!(matches!(
        parse_sections(&[0x00, 0x61, 0x73, 0x6d]),
        Err(Error::Reader(ReaderError::UnexpectedEof))
    ));
    assert!(matches!(
        parse_sections(&[0x00, 0x61, 0x73, 0x6d, 0x01, 0x00]),
        Err(Error::Reader(ReaderError::UnexpectedEof))
    ));
    assert!(matches!(
        parse_sections(&[0x00, 0x61, 0x73, 0x6d, 0x01, 0x00, 0x00]),
        Err(Error::Reader(ReaderError::UnexpectedEof))
    ));
}

#[test]
fn wrong_magic_comes_before_a_short_version() {
    assert!(matches!(parse_sections(&[0x00, 0x61, 0x73, 0x6e, 0x01]), Err(Error::InvalidMagic)));
}

#[test]
fn other_versions_are_unsupported() {
    let r = parse_sections(&[0x00, 0x61, 0x73, 0x6d, 0x02, 0x00, 0x00, 0x00]);
    assert!(matches!(r, Err(Error::UnsupportedVersion(2))));
    let r = parse_sections(&[0x00, 0x61, 0x73, 0x6d, 0x01, 0x02, 0x03, 0x04]);
    assert!(matches!(r, Err(Error::UnsupportedVersion(0x04030201))));
    let r = parse_sections(&[0x00, 0x61, 0x73, 0x6d, 0x00, 0x00, 0x00, 0x00]);
    assert!(matches!(r, Err(Error::UnsupportedVersion(0))));
}

#[test]
fn module_without_sections_is_empty() {
    let module = header();
    let sections = parse_sections(&module).unwrap();
    assert!(sections.is_empty());
}

#[test]
fn standard_section_is_read() {
    let mut module = header();
    module.extend(standard(10, &[1, 2, 3]));
    let sections = parse_sections(&module).unwrap();
    assert_eq!(sections.len(), 1);
    assert!(matches!(sections[0].kind, SectionKind::Standard { id: 10 }));
    assert_eq!(sections[0].payload, &[1, 2, 3]);
    assert_eq!(sections[0].offset, 10);
}

#[test]
fn custom_section_is_read() {
    let mut module = header();
    module.extend(custom("name", &[9, 8]));
    let sections = parse_sections(&module).unwrap();
    assert_eq!(sections.len(), 1);
    match &sections[0].kind {
        SectionKind::Custom { name } => assert_eq!(name, "name"),
        SectionKind::Standard { .. } => panic!("a custom section was expected"),
    }
    assert_eq!(sections[0].payload, &[9, 8]);
    assert_eq!(sections[0].offset, 15);
}

#[test]
fn custom_section_may_have_empty_name_and_payload() {
    let mut module = header();
    module.extend(custom("", &[]));
    let sections = parse_sections(&module).unwrap();
    assert_eq!(sections.len(), 1);
    match &sections[0].kind {
        SectionKind::Custom { name } => assert_eq!(name, ""),
        SectionKind::Standard { .. } => panic!("a custom section was expected"),
    }
    assert!(sections[0].payload.is_empty());
    assert_eq!(sections[0].offset, 11);
}

#[test]
fn sections_follow_each_other() {
    let mut module = header();
    module.extend(standard(1, &[]));
    module.extend(custom(".debug_line", &[7]));
    module.extend(standard(255, &[4, 5]));
    let sections = parse_sections(&module).unwrap();
    assert_eq!(sections.len(), 3);
    assert!(matches!(sections[0].kind, SectionKind::Standard { id: 1 }));
    assert_eq!(sections[0].offset, 10);
    assert_eq!(sections[1].payload, &[7]);
    assert!(matches!(sections[2].kind, SectionKind::Standard { id: 255 }));
    assert_eq!(sections[2].payload, &[4, 5]);
}

#[test]
fn section_id_must_fit_a_byte() {
    let mut module = header();
    module.extend_from_slice(&[0x80, 0x02, 0x00]);
    assert!(matches!(
        parse_sections(&module),
        Err(Error::Reader(ReaderError::BadUnsignedLeb128))
    ));
}

#[test]
fn section_id_may_take_two_bytes() {
    let mut module = header();
    module.extend_from_slice(&[0xff, 0x01, 0x00]);
    let sections = parse_sections(&module).unwrap();
    assert!(matches!(sections[0].kind, SectionKind::Standard { id: 255 }));
}

#[test]
fn truncated_payload_is_unexpected_eof() {
    let mut module = header();
    module.extend_from_slice(&[10, 4, 1, 2, 3]);
    assert!(matches!(parse_sections(&module), Err(Error::Reader(ReaderError::UnexpectedEof))));
    let mut no_length = header();
    no_length.push(10);
    assert!(matches!(
        parse_sections(&no_length),
        Err(Error::Reader(ReaderError::UnexpectedEof))
    ));
}

#[test]
fn name_must_lie_in_its_section() {
    let mut module = header();
    module.extend_from_slice(&[0, 2, 5, b'a', b'b', b'c', b'd', b'e']);
    assert!(matches!(parse_sections(&module), Err(Error::Reader(ReaderError::UnexpectedEof))));
    let mut empty = header();
    empty.extend_from_slice(&[0, 0]);
    assert!(matches!(parse_sections(&empty), Err(Error::Reader(ReaderError::UnexpectedEof))));
}

#[test]
fn name_must_be_utf8() {
    let mut module = header();
    module.extend_from_slice(&[0, 3, 2, 0xff, 0xfe]);
    assert!(matches!(parse_sections(&module), Err(Error::Reader(ReaderError::BadUtf8))));
    let mut cut = header();
    cut.extend_from_slice(&[0, 2, 1, 0xc3]);
    assert!(matches!(parse_sections(&cut), Err(Error::Reader(ReaderError::BadUtf8))));
}

#[test]
fn name_may_hold_any_characters() {
    let mut module = header();
    module.extend(custom("n\u{e9}\u{4e2d}\u{1f600}", &[1]));
    let sections = parse_sections(&module).unwrap();
    match &sections[0].kind {
        SectionKind::Custom { name } => assert_eq!(name, "n\u{e9}\u{4e2d}\u{1f600}"),
        SectionKind::Standard { .. } => panic!("a custom section was expected"),
    }
    assert_eq!(sections[0].payload, &[1]);
}

#[test]
fn overlong_length_is_refused() {
    let mut module = header();
    module.push(10);
    module.extend_from_slice(&[0xff, 0xff, 0xff, 0xff, 0xff, 0xff, 0xff, 0xff, 0xff, 0x02]);
    assert!(matches!(
        parse_sections(&module),
        Err(Error::Reader(ReaderError::BadUnsignedLeb128))
    ));
}

#[test]
fn missing_code_section_is_an_error() {
    let mut module = header();
    module.extend(custom(".debug_info", &[]));
    module.extend(standard(1, &[0]));
    assert!(matches!(parse_module(&module), Err(Error::MissingCodeSection)));
    assert!(matches!(parse_module(&header()), Err(Error::MissingCodeSection)));
}

#[test]
fn parse_errors_come_before_the_missing_code_section() {
    let mut module = header();
    module.extend(standard(1, &[0]));
    module.extend_from_slice(&[10, 9]);
    assert!(matches!(parse_module(&module), Err(Error::Reader(ReaderError::UnexpectedEof))));
    assert!(matches!(parse_module(b"\0asn\x01\0\0\0"), Err(Error::InvalidMagic)));
}

#[test]
fn code_section_gives_the_offset() {
    let mut module = header();
    module.extend(standard(1, &[0, 0]));
    module.extend(standard(10, &[0x0b]));
    let parsed = parse_module(&module).unwrap();
    assert_eq!(parsed.code_section_offset, 14);
}

#[test]
fn last_code_section_wins() {
    let mut module = header();
    module.extend(standard(10, &[1]));
    module.extend(standard(10, &[2]));
    let parsed = parse_module(&module).unwrap();
    assert_eq!(parsed.code_section_offset, 13);
}

#[test]
fn debug_sections_are_collected_by_name() {
    let mut module = header();
    module.extend(custom(".debug_info", &[1, 2]));
    module.extend(custom("name", &[3]));
    module.extend(custom(".debug_line", &[4]));
    module.extend(custom(".debug", &[5]));
    module.extend(standard(10, &[]));
    let parsed = parse_module(&module).unwrap();
    assert_eq!(parsed.debug_sections.get(".debug_info"), &[1, 2]);
    assert_eq!(parsed.debug_sections.get(".debug_line"), &[4]);
    assert!(parsed.debug_sections.get("name").is_empty());
    assert!(parsed.debug_sections.get(".debug").is_empty());
    assert!(parsed.debug_sections.get(".debug_str").is_empty());
}

#[test]
fn later_debug_section_replaces_earlier() {
    let mut module = header();
    module.extend(custom(".debug_str", &[1]));
    module.extend(standard(10, &[]));
    module.extend(custom(".debug_str", &[2, 3]));
    let parsed = parse_module(&module).unwrap();
    assert_eq!(parsed.debug_sections.get(".debug_str"), &[2, 3]);
}
