use wasm_source_map::error::ReaderError;
use wasm_source_map::location::LocationEntry;
use wasm_source_map::wasm::Error;
use wasm_source_map::Resolver;

const DW_AT_STMT_LIST: u8 = 0x10;
const DW_AT_LANGUAGE: u8 = 0x13;
const DW_AT_COMP_DIR: u8 = 0x1b;
const DW_FORM_DATA2: u8 = 0x05;
const DW_FORM_STRING: u8 = 0x08;
const DW_FORM_SEC_OFFSET: u8 = 0x17;
const LANG_C99: u16 = 0x0c;
const LANG_RUST: u16 = 0x1c;

fn uleb(mut n: u64) -> Vec<u8> {
    let mut out = Vec::new();
    loop {
        let byte = (n & 0x7f) as u8;
        n >>= 7;
        if n == 0 {
            out.push(byte);
            return out;
        }
        out.push(byte | 0x80);
    }
}

fn section(id: u8, body: &[u8]) -> Vec<u8> {
    let mut out = vec![id];
    out.extend(uleb(body.len() as u64));
    out.extend_from_slice(body);
    out
}

fn custom(name: &str, payload: &[u8]) -> Vec<u8> {
    let mut body = uleb(name.len() as u64);
    body.extend_from_slice(name.as_bytes());
    body.extend_from_slice(payload);
    section(0, &body)
}

fn cstr(s: &str) -> Vec<u8> {
    let mut out = s.as_bytes().to_vec();
    out.push(0);
    out
}

/// One compilation unit: the attributes of its only entry, each with its
/// name, its form and its value.
struct UnitSource {
    attributes: Vec<(u8, u8, Vec<u8>)>,
}

fn unit(language: Option<u16>, comp_dir: Option<&str>, stmt_list: Option<u32>) -> UnitSource {
    let mut attributes = Vec::new();
    if let Some(language) = language {
        attributes.push((DW_AT_LANGUAGE, DW_FORM_DATA2, language.to_le_bytes().to_vec()));
    }
    if let Some(comp_dir) = comp_dir {
        attributes.push((DW_AT_COMP_DIR, DW_FORM_STRING, cstr(comp_dir)));
    }
    if let Some(offset) = stmt_list {
        attributes.push((DW_AT_STMT_LIST, DW_FORM_SEC_OFFSET, offset.to_le_bytes().to_vec()));
    }
    UnitSource { attributes }
}

fn debug_abbrev(units: &[UnitSource]) -> Vec<u8> {
    let mut out = Vec::new();
    for (n, unit) in units.iter().enumerate() {
        out.extend(uleb(n as u64 + 1));
        out.push(0x11);
        out.push(0x00);
        for (name, form, _) in &unit.attributes {
            out.push(*name);
            out.push(*form);
        }
        out.extend_from_slice(&[0, 0]);
    }
    out.push(0);
    out
}

fn debug_info(units: &[UnitSource]) -> Vec<u8> {
    let mut out = Vec::new();
    for (n, unit) in units.iter().enumerate() {
        let mut body = vec![4, 0];
        body.extend_from_slice(&0u32.to_le_bytes());
        body.push(4);
        body.extend(uleb(n as u64 + 1));
        for (_, _, value) in &unit.attributes {
            body.extend_from_slice(value);
        }
        out.extend_from_slice(&(body.len() as u32).to_le_bytes());
        out.extend(body);
    }
    out
}

/// A line-number program of version 4, with its files, each with the index
/// of its directory, and its instructions.
fn line_program(directories: &[&str], files: &[(&str, u64)], instructions: &[u8]) -> Vec<u8> {
    let mut header = vec![1, 1, 1, 0xfb, 14, 13];
    header.extend_from_slice(&[0, 1, 1, 1, 1, 0, 0, 0, 1, 0, 0, 1]);
    for directory in directories {
        header.extend(cstr(directory));
    }
    header.push(0);
    for (name, directory) in files {
        header.extend(cstr(name));
        header.extend(uleb(*directory));
        header.extend_from_slice(&[0, 0]);
    }
    header.push(0);
    let mut body = vec![4, 0];
    body.extend_from_slice(&(header.len() as u32).to_le_bytes());
    body.extend(header);
    body.extend_from_slice(instructions);
    let mut out = (body.len() as u32).to_le_bytes().to_vec();
    out.extend(body);
    out
}

fn set_address(address: u32) -> Vec<u8> {
    let mut out = vec![0, 5, 2];
    out.extend_from_slice(&address.to_le_bytes());
    out
}

fn advance_line(by: u8) -> Vec<u8> {
    vec![3, by]
}

fn set_file(file: u8) -> Vec<u8> {
    vec![4, file]
}

fn set_column(column: u8) -> Vec<u8> {
    vec![5, column]
}

fn advance_pc(by: u8) -> Vec<u8> {
    vec![2, by]
}

fn copy() -> Vec<u8> {
    vec![1]
}

fn end_sequence() -> Vec<u8> {
    vec![0, 1, 1]
}

fn program(steps: &[Vec<u8>]) -> Vec<u8> {
    steps.concat()
}

/// A module with the given units and line-number programs, and the offset
/// of its code section.
fn module(units: &[UnitSource], debug_line: &[u8]) -> (Vec<u8>, u32) {
    let mut out = vec![0x00, 0x61, 0x73, 0x6d, 0x01, 0x00, 0x00, 0x00];
    out.extend(section(1, &[0x01, 0x60, 0x00, 0x00]));
    out.extend(custom(".debug_abbrev", &debug_abbrev(units)));
    let code = section(10, &[0x01, 0x02, 0x00, 0x0b]);
    let base = out.len() as u32 + 2;
    out.extend(code);
    out.extend(custom(".debug_info", &debug_info(units)));
    out.extend(custom(".debug_line", debug_line));
    out.extend(custom("name", &[0x00, 0x01, 0x6d]));
    (out, base)
}

fn two_sequences() -> Vec<u8> {
    program(&[
        set_address(0),
        copy(),
        advance_pc(2),
        copy(),
        end_sequence(),
        set_address(0x10),
        advance_line(4),
        set_column(3),
        copy(),
        advance_pc(4),
        set_column(7),
        copy(),
        advance_pc(4),
        end_sequence(),
    ])
}

fn shape(entry: &LocationEntry) -> (u32, String, u32, u32) {
    (entry.addr(), entry.dest().clone(), entry.pos().line(), entry.pos().column())
}

fn found(entry: Option<LocationEntry>) -> Option<(u32, String, u32, u32)> {
    entry.map(|entry| shape(&entry))
}

#[test]
fn round_trip_of_a_small_module() {
    let units = [unit(Some(LANG_C99), Some("/src"), Some(0))];
    let (bytes, base) = module(&units, &line_program(&[], &[("f.c", 0)], &two_sequences()));
    let resolver = Resolver::new(&bytes).unwrap();
    let file = String::from("file:///src/f.c");
    assert_eq!(resolver.list_files(), vec![file.clone()]);
    assert_eq!(found(resolver.resolve(base + 0x10)), Some((base + 0x10, file.clone(), 4, 2)));
    assert_eq!(
        found(resolver.resolve_reverse(&file, 4, 0)),
        Some((base + 0x10, file.clone(), 4, 2))
    );
    assert_eq!(
        found(resolver.resolve_reverse(&file, 4, 3)),
        Some((base + 0x14, file.clone(), 4, 6))
    );
    assert!(resolver.resolve_reverse(&file, 4, 7).is_none());
    assert!(resolver.resolve_reverse(&file, 0, 0).is_none());
    assert!(resolver.resolve_reverse(&file, 3, 0).is_none());
    assert!(resolver.resolve_reverse(&file, 5, 0).is_none());
}

#[test]
fn round_trip_forward_index() {
    let units = [unit(Some(LANG_C99), Some("/src"), Some(0))];
    let (bytes, base) = module(&units, &line_program(&[], &[("f.c", 0)], &two_sequences()));
    let resolver = Resolver::from_slice(&bytes).unwrap();
    let file = String::from("file:///src/f.c");
    let mappings: Vec<_> = resolver.list_mappings().iter().map(shape).collect();
    assert_eq!(
        mappings,
        vec![
            (base + 0x10, file.clone(), 4, 2),
            (base + 0x14, file.clone(), 4, 6),
            (base + 0x18, file.clone(), 4, 6),
        ]
    );
    assert!(resolver.resolve(base).is_none());
    assert!(resolver.resolve(base + 0x0f).is_none());
    assert_eq!(found(resolver.resolve(base + 0x13)), Some((base + 0x10, file.clone(), 4, 2)));
    assert_eq!(found(resolver.resolve(base + 0x14)), Some((base + 0x14, file.clone(), 4, 6)));
}

#[test]
fn code_offset_is_that_of_the_payload() {
    let units = [unit(Some(LANG_C99), Some("/src"), Some(0))];
    let (bytes, base) = module(&units, &line_program(&[], &[("f.c", 0)], &two_sequences()));
    assert_eq!(bytes[base as usize - 2], 10);
    assert_eq!(&bytes[base as usize..base as usize + 4], &[0x01, 0x02, 0x00, 0x0b]);
}

#[test]
fn rust_units_keep_their_columns() {
    let units = [unit(Some(LANG_RUST), Some("/src"), Some(0))];
    let (bytes, base) = module(&units, &line_program(&[], &[("lib.rs", 0)], &two_sequences()));
    let resolver = Resolver::new(&bytes).unwrap();
    let file = String::from("file:///src/lib.rs");
    assert_eq!(found(resolver.resolve(base + 0x10)), Some((base + 0x10, file.clone(), 4, 3)));
    assert_eq!(found(resolver.resolve(base + 0x14)), Some((base + 0x14, file.clone(), 4, 7)));
}

#[test]
fn units_without_language_are_not_rust() {
    let units = [unit(None, Some("/src"), Some(0))];
    let (bytes, base) = module(&units, &line_program(&[], &[("f.c", 0)], &two_sequences()));
    let resolver = Resolver::new(&bytes).unwrap();
    let file = String::from("file:///src/f.c");
    assert_eq!(found(resolver.resolve(base + 0x10)), Some((base + 0x10, file, 4, 2)));
}

#[test]
fn rows_without_column_are_at_the_left_edge() {
    let steps = program(&[set_address(8), advance_line(2), copy(), advance_pc(1), end_sequence()]);
    for language in [LANG_C99, LANG_RUST] {
        let units = [unit(Some(language), Some("/src"), Some(0))];
        let (bytes, base) = module(&units, &line_program(&[], &[("f.c", 0)], &steps));
        let resolver = Resolver::new(&bytes).unwrap();
        let file = String::from("file:///src/f.c");
        assert_eq!(found(resolver.resolve(base + 8)), Some((base + 8, file, 2, 0)));
    }
}

#[test]
fn sequences_at_address_zero_give_no_facts() {
    let steps = program(&[set_address(0), copy(), advance_pc(4), copy(), end_sequence()]);
    let units = [unit(Some(LANG_C99), Some("/src"), Some(0))];
    let (bytes, _) = module(&units, &line_program(&[], &[("f.c", 0)], &steps));
    let resolver = Resolver::new(&bytes).unwrap();
    assert!(resolver.list_files().is_empty());
    assert!(resolver.list_mappings().is_empty());
    assert!(resolver.resolve(u32::MAX).is_none());
}

#[test]
fn rows_of_unknown_files_are_skipped() {
    let steps = program(&[
        set_address(4),
        set_file(9),
        copy(),
        advance_pc(4),
        set_file(1),
        copy(),
        advance_pc(4),
        end_sequence(),
    ]);
    let units = [unit(Some(LANG_C99), Some("/src"), Some(0))];
    let (bytes, base) = module(&units, &line_program(&[], &[("f.c", 0)], &steps));
    let resolver = Resolver::new(&bytes).unwrap();
    let addresses: Vec<u32> = resolver.list_mappings().iter().map(|e| e.addr()).collect();
    assert_eq!(addresses, vec![base + 8, base + 12]);
}

#[test]
fn files_take_their_directories() {
    let steps = program(&[
        set_address(4),
        copy(),
        advance_pc(4),
        set_file(2),
        copy(),
        advance_pc(4),
        set_file(3),
        copy(),
        advance_pc(4),
        set_file(4),
        copy(),
        advance_pc(4),
        end_sequence(),
    ]);
    let directories = ["include", "/usr/include", "/rustc/0123abcd/library/core/src"];
    let files = [("main.c", 0), ("util.h", 1), ("stdio.h", 2), ("option.rs", 3)];
    let units = [unit(Some(LANG_C99), Some("/build"), Some(0))];
    let (bytes, base) = module(&units, &line_program(&directories, &files, &steps));
    let resolver = Resolver::new(&bytes).unwrap();
    assert_eq!(
        resolver.list_files(),
        vec![
            "file:///build/main.c",
            "file:///build/include/util.h",
            "file:///usr/include/stdio.h",
            "https://raw.githubusercontent.com/rust-lang/rust/0123abcd/library/core/src/option.rs",
        ]
    );
    assert_eq!(
        found(resolver.resolve(base + 8)),
        Some((base + 8, String::from("file:///build/include/util.h"), 0, 0))
    );
}

#[test]
fn windows_directories_use_backslashes() {
    let steps = program(&[set_address(4), copy(), advance_pc(4), end_sequence()]);
    let units = [unit(Some(LANG_C99), Some("C:\\build"), Some(0))];
    let (bytes, _) = module(&units, &line_program(&["src"], &[("main.c", 1)], &steps));
    let resolver = Resolver::new(&bytes).unwrap();
    assert_eq!(resolver.list_files(), vec!["file:///C:\\build\\src\\main.c"]);
}

#[test]
fn several_units_share_the_indices() {
    let first = line_program(&[], &[("a.c", 0)], &program(&[
        set_address(0x20),
        set_column(2),
        copy(),
        advance_pc(1),
        end_sequence(),
    ]));
    let second = line_program(&[], &[("b.rs", 0)], &program(&[
        set_address(0x10),
        set_column(2),
        copy(),
        advance_pc(1),
        end_sequence(),
    ]));
    let units = [
        unit(Some(LANG_C99), Some("/one"), Some(0)),
        unit(Some(LANG_RUST), Some("/two"), Some(first.len() as u32)),
    ];
    let mut debug_line = first.clone();
    debug_line.extend(second);
    let (bytes, base) = module(&units, &debug_line);
    let resolver = Resolver::new(&bytes).unwrap();
    assert_eq!(resolver.list_files(), vec!["file:///one/a.c", "file:///two/b.rs"]);
    let mappings: Vec<_> = resolver.list_mappings().iter().map(shape).collect();
    assert_eq!(
        mappings,
        vec![
            (base + 0x10, String::from("file:///two/b.rs"), 0, 2),
            (base + 0x11, String::from("file:///two/b.rs"), 0, 2),
            (base + 0x20, String::from("file:///one/a.c"), 0, 1),
            (base + 0x21, String::from("file:///one/a.c"), 0, 1),
        ]
    );
}

#[test]
fn units_without_line_program_are_skipped() {
    let units = [unit(Some(LANG_C99), Some("relative"), None), unit(None, None, None)];
    let (bytes, _) = module(&units, &[]);
    let resolver = Resolver::new(&bytes).unwrap();
    assert!(resolver.list_files().is_empty());
    assert!(resolver.list_mappings().is_empty());
}

#[test]
fn modules_without_debugging_information_are_empty() {
    let mut bytes = vec![0x00, 0x61, 0x73, 0x6d, 0x01, 0x00, 0x00, 0x00];
    bytes.extend(section(10, &[0x00]));
    let resolver = Resolver::new(&bytes).unwrap();
    assert!(resolver.list_files().is_empty());
    assert!(resolver.list_mappings().is_empty());
    assert!(resolver.resolve(10).is_none());
}

#[test]
fn relative_compilation_directory_is_refused() {
    let units = [unit(Some(LANG_C99), Some("src"), Some(0))];
    let (bytes, _) = module(&units, &line_program(&[], &[("f.c", 0)], &two_sequences()));
    assert!(matches!(
        Resolver::new(&bytes),
        Err(Error::Reader(ReaderError::RelativeCompilationDirectory))
    ));
}

#[test]
fn missing_compilation_directory_is_refused() {
    let units = [unit(Some(LANG_C99), None, Some(0))];
    let (bytes, _) = module(&units, &line_program(&[], &[("f.c", 0)], &two_sequences()));
    assert!(matches!(
        Resolver::new(&bytes),
        Err(Error::Reader(ReaderError::RelativeCompilationDirectory))
    ));
}

#[test]
fn malformed_debugging_information_is_refused() {
    let units = [unit(Some(LANG_C99), Some("/src"), Some(0))];
    let mut lines = line_program(&[], &[("f.c", 0)], &two_sequences());
    lines.truncate(lines.len() - 2);
    let (bytes, _) = module(&units, &lines);
    assert!(matches!(Resolver::new(&bytes), Err(Error::Reader(ReaderError::Dwarf(_)))));
    let mut bare = vec![0x00, 0x61, 0x73, 0x6d, 0x01, 0x00, 0x00, 0x00];
    bare.extend(section(10, &[0x00]));
    bare.extend(custom(".debug_info", &[0xff, 0x00, 0x00]));
    assert!(matches!(Resolver::new(&bare), Err(Error::Reader(ReaderError::Dwarf(_)))));
}

#[test]
fn malformed_line_program_is_refused() {
    let steps = program(&[set_address(4), copy(), vec![0, 9, 2, 1]]);
    let units = [unit(Some(LANG_C99), Some("/src"), Some(0))];
    let (bytes, _) = module(&units, &line_program(&[], &[("f.c", 0)], &steps));
    assert!(matches!(Resolver::new(&bytes), Err(Error::Reader(ReaderError::Dwarf(_)))));
}

#[test]
fn malformed_modules_give_no_resolver() {
    assert!(matches!(Resolver::new(b"\0asn\x01\0\0\0"), Err(Error::InvalidMagic)));
    assert!(matches!(Resolver::from_slice(b"\0asn\x01\0\0\0"), Err(Error::InvalidMagic)));
    assert!(matches!(Resolver::new(b"\0asm\x02\0\0\0"), Err(Error::UnsupportedVersion(2))));
    assert!(matches!(Resolver::new(b"\0as"), Err(Error::InvalidMagic)));
    assert!(matches!(Resolver::new(b""), Err(Error::InvalidMagic)));
    assert!(matches!(Resolver::new(b"\0asm\x01"), Err(Error::Reader(ReaderError::UnexpectedEof))));
    assert!(matches!(
        Resolver::new(b"\0asm\x01\0\0\0\x0a\x05"),
        Err(Error::Reader(ReaderError::UnexpectedEof))
    ));
}

#[test]
fn modules_without_code_section_give_no_resolver() {
    let units = [unit(Some(LANG_C99), Some("/src"), Some(0))];
    let mut bytes = vec![0x00, 0x61, 0x73, 0x6d, 0x01, 0x00, 0x00, 0x00];
    bytes.extend(custom(".debug_abbrev", &debug_abbrev(&units)));
    bytes.extend(custom(".debug_info", &debug_info(&units)));
    bytes.extend(custom(".debug_line", &line_program(&[], &[("f.c", 0)], &two_sequences())));
    assert!(matches!(Resolver::new(&bytes), Err(Error::MissingCodeSection)));
    assert!(matches!(Resolver::new(b"\0asm\x01\0\0\0"), Err(Error::MissingCodeSection)));
}

#[test]
fn addresses_beyond_32_bits_are_refused() {
    let steps = program(&[set_address(0xffff_fff0), copy(), advance_pc(1), end_sequence()]);
    let units = [unit(Some(LANG_C99), Some("/src"), Some(0))];
    let (bytes, _) = module(&units, &line_program(&[], &[("f.c", 0)], &steps));
    assert!(matches!(
        Resolver::new(&bytes),
        Err(Error::Reader(ReaderError::AddressOverflow))
    ));
}

#[test]
fn columns_beyond_32_bits_are_refused() {
    let wide_column = vec![5, 0x80, 0x80, 0x80, 0x80, 0x10];
    let steps = program(&[set_address(4), wide_column, copy(), advance_pc(1), end_sequence()]);
    let lines = line_program(&[], &[("f.c", 0)], &steps);
    let rust = [unit(Some(LANG_RUST), Some("/src"), Some(0))];
    let (bytes, _) = module(&rust, &lines);
    assert!(matches!(Resolver::new(&bytes), Err(Error::Reader(ReaderError::BadColumn))));
    let other = [unit(Some(LANG_C99), Some("/src"), Some(0))];
    let (bytes, base) = module(&other, &lines);
    let resolver = Resolver::new(&bytes).unwrap();
    assert_eq!(
        found(resolver.resolve(base + 4)),
        Some((base + 4, String::from("file:///src/f.c"), 0, u32::MAX))
    );
}

#[test]
fn lines_beyond_32_bits_are_refused() {
    let far_line = vec![3, 0x80, 0x80, 0x80, 0x80, 0x10];
    let steps = program(&[set_address(4), far_line, copy(), advance_pc(1), end_sequence()]);
    let units = [unit(Some(LANG_C99), Some("/src"), Some(0))];
    let (bytes, _) = module(&units, &line_program(&[], &[("f.c", 0)], &steps));
    assert!(matches!(Resolver::new(&bytes), Err(Error::Reader(ReaderError::BadLine))));
}

#[test]
fn rows_without_line_are_skipped() {
    let back_to_zero = vec![3, 0x7f];
    let steps = program(&[
        set_address(4),
        back_to_zero,
        copy(),
        advance_pc(4),
        advance_line(3),
        copy(),
        advance_pc(4),
        end_sequence(),
    ]);
    let units = [unit(Some(LANG_C99), Some("/src"), Some(0))];
    let (bytes, base) = module(&units, &line_program(&[], &[("f.c", 0)], &steps));
    let resolver = Resolver::new(&bytes).unwrap();
    let mappings: Vec<_> = resolver.list_mappings().iter().map(shape).collect();
    assert_eq!(
        mappings,
        vec![
            (base + 8, String::from("file:///src/f.c"), 2, 0),
            (base + 12, String::from("file:///src/f.c"), 2, 0),
        ]
    );
}

/// `bytes` with each `BAD` in it made into three bytes that are no UTF-8.
fn spoiled(bytes: &[u8]) -> Vec<u8> {
    let mut out = bytes.to_vec();
    let mut at = 0;
    while at + 3 <= out.len() {
        if &out[at..at + 3] == b"BAD" {
            out[at] = 0xff;
            out[at + 1] = 0xfe;
            out[at + 2] = 0xfd;
        }
        at += 1;
    }
    out
}

#[test]
fn names_of_rows_without_facts_are_not_checked() {
    let steps = program(&[
        set_address(0),
        set_file(2),
        copy(),
        advance_pc(4),
        end_sequence(),
        set_address(0x10),
        copy(),
        advance_pc(4),
        set_file(2),
        vec![3, 0x7f],
        copy(),
        advance_pc(4),
        end_sequence(),
    ]);
    let lines = spoiled(&line_program(&["BAD"], &[("f.c", 0), ("BAD", 1)], &steps));
    let units = [unit(Some(LANG_C99), Some("/src"), Some(0))];
    let (bytes, base) = module(&units, &lines);
    let resolver = Resolver::new(&bytes).unwrap();
    assert_eq!(resolver.list_files(), vec!["file:///src/f.c"]);
    let addresses: Vec<u32> = resolver.list_mappings().iter().map(|e| e.addr()).collect();
    assert_eq!(addresses, vec![base + 0x10]);
}

#[test]
fn names_of_rows_with_facts_are_checked() {
    let steps = program(&[set_address(0x10), set_file(2), copy(), advance_pc(4), end_sequence()]);
    let units = [unit(Some(LANG_C99), Some("/src"), Some(0))];
    let bad_name = spoiled(&line_program(&[], &[("f.c", 0), ("BAD", 0)], &steps));
    let (bytes, _) = module(&units, &bad_name);
    assert!(matches!(Resolver::new(&bytes), Err(Error::Reader(ReaderError::Dwarf(_)))));
    let bad_directory = spoiled(&line_program(&["BAD"], &[("f.c", 0), ("g.c", 1)], &steps));
    let (bytes, _) = module(&units, &bad_directory);
    assert!(matches!(Resolver::new(&bytes), Err(Error::Reader(ReaderError::Dwarf(_)))));
}

#[test]
fn directories_of_units_without_line_program_are_not_checked() {
    let units = [unit(Some(LANG_C99), Some("BAD"), None)];
    let mut bytes = vec![0x00, 0x61, 0x73, 0x6d, 0x01, 0x00, 0x00, 0x00];
    bytes.extend(section(10, &[0x00]));
    bytes.extend(custom(".debug_abbrev", &debug_abbrev(&units)));
    bytes.extend(custom(".debug_info", &spoiled(&debug_info(&units))));
    let resolver = Resolver::new(&bytes).unwrap();
    assert!(resolver.list_mappings().is_empty());
}

#[test]
fn directories_of_units_with_line_program_are_checked() {
    let units = [unit(Some(LANG_C99), Some("BAD"), Some(0))];
    let mut bytes = vec![0x00, 0x61, 0x73, 0x6d, 0x01, 0x00, 0x00, 0x00];
    bytes.extend(section(10, &[0x00]));
    bytes.extend(custom(".debug_abbrev", &debug_abbrev(&units)));
    bytes.extend(custom(".debug_info", &spoiled(&debug_info(&units))));
    bytes.extend(custom(".debug_line", &line_program(&[], &[("f.c", 0)], &two_sequences())));
    assert!(matches!(Resolver::new(&bytes), Err(Error::Reader(ReaderError::Dwarf(_)))));
}

/// The instruction that moves the line by the least 64-bit number.
fn least_advance() -> Vec<u8> {
    vec![3, 0x80, 0x80, 0x80, 0x80, 0x80, 0x80, 0x80, 0x80, 0x80, 0x7f]
}

#[test]
fn programs_that_move_the_line_back_too_far_are_refused() {
    let steps = program(&[set_address(4), least_advance(), copy(), advance_pc(1), end_sequence()]);
    let units = [unit(Some(LANG_C99), Some("/src"), Some(0))];
    let (bytes, _) = module(&units, &line_program(&[], &[("f.c", 0)], &steps));
    assert!(matches!(
        Resolver::new(&bytes),
        Err(Error::Reader(ReaderError::BadLineAdvance))
    ));
}

#[test]
fn such_programs_are_refused_wherever_the_instruction_stands() {
    let in_ignored = program(&[
        set_address(0),
        least_advance(),
        copy(),
        end_sequence(),
        set_address(4),
        copy(),
        advance_pc(1),
        end_sequence(),
    ]);
    let at_end = program(&[set_address(4), copy(), advance_pc(1), end_sequence(), least_advance()]);
    let units = [unit(Some(LANG_C99), Some("/src"), Some(0))];
    for steps in [in_ignored, at_end] {
        let (bytes, _) = module(&units, &line_program(&[], &[("f.c", 0)], &steps));
        assert!(matches!(
            Resolver::new(&bytes),
            Err(Error::Reader(ReaderError::BadLineAdvance))
        ));
    }
}

#[test]
fn other_moves_of_the_line_are_run() {
    let nearly = vec![3, 0x81, 0x80, 0x80, 0x80, 0x80, 0x80, 0x80, 0x80, 0x80, 0x7f];
    let steps = program(&[
        set_address(4),
        advance_line(9),
        nearly,
        copy(),
        advance_pc(1),
        advance_line(2),
        copy(),
        advance_pc(1),
        end_sequence(),
    ]);
    let units = [unit(Some(LANG_C99), Some("/src"), Some(0))];
    let (bytes, base) = module(&units, &line_program(&[], &[("f.c", 0)], &steps));
    let resolver = Resolver::new(&bytes).unwrap();
    let mappings: Vec<_> = resolver.list_mappings().iter().map(shape).collect();
    assert_eq!(
        mappings,
        vec![
            (base + 5, String::from("file:///src/f.c"), 1, 0),
            (base + 6, String::from("file:///src/f.c"), 1, 0),
        ]
    );
}

#[test]
fn instructions_after_one_that_cannot_be_read_do_not_count() {
    let mut steps = program(&[set_address(4), copy(), vec![0, 0]]);
    steps.extend(least_advance());
    let units = [unit(Some(LANG_C99), Some("/src"), Some(0))];
    let (bytes, _) = module(&units, &line_program(&[], &[("f.c", 0)], &steps));
    assert!(matches!(Resolver::new(&bytes), Err(Error::Reader(ReaderError::Dwarf(_)))));
}

#[test]
fn the_directory_of_a_unit_is_looked_at_before_its_program() {
    let steps = program(&[set_address(4), least_advance(), copy(), end_sequence()]);
    let units = [unit(Some(LANG_C99), Some("src"), Some(0))];
    let (bytes, _) = module(&units, &line_program(&[], &[("f.c", 0)], &steps));
    assert!(matches!(
        Resolver::new(&bytes),
        Err(Error::Reader(ReaderError::RelativeCompilationDirectory))
    ));
}
