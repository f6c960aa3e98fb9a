use mergehex_rs::hex::{parse_hex_file, record_slicing_panics, write_hex, HexDecoder, Record};
use mergehex_rs::memory::{MemoryMap, OverlapPolicy};
use mergehex_rs::MergehexError;

fn lines(text: &str) -> Vec<String> {
    text.lines().map(|l| l.to_string()).collect()
}

fn hex_text(memory: &MemoryMap) -> String {
    let mut output = Vec::new();
    write_hex(&mut output, memory);
    String::from_utf8(output).unwrap()
}

#[test]
fn parse_simple_data_record() {
    let rec = Record::parse(":0400000001020304F2").unwrap();
    assert_eq!(
        rec,
        Record::Data {
            offset: 0x0000,
            data: vec![0x01, 0x02, 0x03, 0x04],
        }
    );
}

#[test]
fn parse_eof_record() {
    assert_eq!(Record::parse(":00000001FF").unwrap(), Record::EndOfFile);
}

#[test]
fn parse_extended_linear_address() {
    assert_eq!(
        Record::parse(":020000040800F2").unwrap(),
        Record::ExtendedLinearAddress(0x0800)
    );
}

#[test]
fn checksum_failure_detected() {
    assert!(matches!(
        Record::parse(":100000000C9485000C94A3000C94A3000C94A30000"),
        Err(MergehexError::HexChecksum { .. })
    ));
}

#[test]
fn roundtrip_small_memory_map() {
    let mut memory = MemoryMap::new();
    memory.set(0x0000, 0x01).unwrap();
    memory.set(0x0001, 0x02).unwrap();
    memory.set(0x0002, 0x03).unwrap();
    memory.set(0x0003, 0x04).unwrap();

    let mut output = Vec::new();
    write_hex(&mut output, &memory);
    let text = String::from_utf8(output).unwrap();
    assert!(text.contains(":020000040000FA"));
    assert!(text.contains(":0400000001020304F2"));
    assert!(text.contains(":00000001FF"));
}

#[test]
fn checksum_failure_reports_both_bytes() {
    match Record::parse(":0400000001020304F3") {
        Err(MergehexError::HexChecksum { expected, computed }) => {
            assert_eq!(expected, 0xF3);
            assert_eq!(computed, 0xF2);
        }
        other => panic!("unexpected {:?}", other),
    }
}

#[test]
fn parse_trims_surrounding_whitespace() {
    assert_eq!(Record::parse("  :00000001FF\r\n").unwrap(), Record::EndOfFile);
    assert_eq!(Record::parse("\u{3000}:00000001FF\u{a0}").unwrap(), Record::EndOfFile);
}

#[test]
fn parse_other_record_types() {
    assert_eq!(
        Record::parse(":020000021200EA").unwrap(),
        Record::ExtendedSegmentAddress(0x1200)
    );
    assert_eq!(
        Record::parse(":0400000300003800C1").unwrap(),
        Record::StartSegmentAddress { cs: 0x0000, ip: 0x3800 }
    );
    assert_eq!(
        Record::parse(":04000005000000CD2A").unwrap(),
        Record::StartLinearAddress(0x000000CD)
    );
}

#[test]
fn parse_lowercase_and_plus_digits() {
    // from_str_radix accepts lowercase digits and a leading `+` in a pair
    assert_eq!(Record::parse(":00000001ff").unwrap(), Record::EndOfFile);
    assert_eq!(Record::parse(":+0000001FF").unwrap(), Record::EndOfFile);
}

#[test]
fn parse_errors_are_hex_parse() {
    for line in [
        "00000001FF",
        ":0000001FF",
        ":000000001FF",
        ":00000001GG",
        ":0200000001FD",
        ":00000006FA",
        ":0100000204F9",
        ":0300000300000000FA",
        ":0100000400FB",
        ":0300000500000000F8",
        "",
    ] {
        assert!(
            matches!(Record::parse(line), Err(MergehexError::HexParse { .. })),
            "line {:?}",
            line
        );
    }
}

#[test]
fn slicing_panics_is_detected() {
    // a three-byte character inside the digits: slicing the text there would panic
    assert!(record_slicing_panics(":0000\u{20ac}01FFA"));
    assert!(!record_slicing_panics(":00000001FF"));
    // a two-byte character that fills a pair is a plain invalid digit
    assert!(!record_slicing_panics(":0000\u{e9}01FF"));
    assert!(matches!(
        Record::parse(":0000\u{e9}01FF"),
        Err(MergehexError::HexParse { .. })
    ));
    // an invalid pair before the wide character stops the decoding first
    assert!(!record_slicing_panics(":zz00\u{20ac}01FFA"));
}

#[test]
fn write_empty_map_is_only_eof() {
    let memory = MemoryMap::new();
    assert_eq!(hex_text(&memory), ":00000001FF\n");
}

#[test]
fn write_splits_records_at_32_bytes_and_gaps() {
    let mut memory = MemoryMap::new();
    for i in 0..40u64 {
        memory.set(0x100 + i, i as u8).unwrap();
    }
    memory.set(0x200, 0xAA).unwrap();
    let text = hex_text(&memory);
    let ls: Vec<&str> = text.lines().collect();
    assert_eq!(ls.len(), 6);
    assert_eq!(ls[0], ":020000040000FA");
    assert!(ls[1].starts_with(":20010000"));
    assert!(ls[2].starts_with(":08012000"));
    assert_eq!(ls[3], ":020000040000FA");
    assert_eq!(ls[4], ":01020000AA53");
    assert_eq!(ls[5], ":00000001FF");
}

#[test]
fn write_crosses_64k_boundary() {
    let mut memory = MemoryMap::new();
    for i in 0..4u64 {
        memory.set(0xFFFE + i, 0x11).unwrap();
    }
    for i in 0..32u64 {
        memory.set(0x1_0002 + i, 0x22).unwrap();
    }
    let text = hex_text(&memory);
    let ls: Vec<&str> = text.lines().collect();
    // the first record runs past 0xFFFF; the next one starts in the next 64 KiB
    // window and is preceded by a new extended linear address record
    assert_eq!(ls[0], ":020000040000FA");
    assert!(ls[1].starts_with(":20FFFE00"));
    assert_eq!(ls[2], ":020000040001F9");
    assert!(ls[3].starts_with(":04001E00"));
    assert_eq!(ls[4], ":00000001FF");
}

#[test]
fn written_text_reads_back() {
    let mut memory = MemoryMap::new();
    for i in 0..70u64 {
        memory.set(0x0800_FFF0 + i, (i * 7) as u8).unwrap();
    }
    memory.set(0x10, 0x55).unwrap();
    let text = hex_text(&memory);
    let pairs = parse_hex_file("out.hex", &lines(&text)).unwrap();
    assert_eq!(pairs, memory.iter());
}

#[test]
fn hex_file_addresses_and_eof() {
    let text = ":020000021000EC\n:020010000102EB\n\n:020000040001F9\n:0100200003DC\n:00000001FF\n:0100000000FF\n";
    let pairs = parse_hex_file("f.hex", &lines(text)).unwrap();
    assert_eq!(pairs, vec![(0x10010, 1), (0x10011, 2), (0x10020, 3)]);
}

#[test]
fn hex_file_missing_eof() {
    let err = parse_hex_file("f.hex", &lines(":0100000001FE\n")).unwrap_err();
    assert!(matches!(err, MergehexError::HexParse { .. }));
}

#[test]
fn hex_file_reports_line_numbers() {
    let err = parse_hex_file("f.hex", &lines("\n:0100000001FE\n:0100000001FF\n")).unwrap_err();
    match err {
        MergehexError::HexLine { path, line, source } => {
            assert_eq!(path, "f.hex");
            assert_eq!(line, 3);
            assert!(matches!(*source, MergehexError::HexChecksum { expected: 0xFF, computed: 0xFE }));
        }
        other => panic!("unexpected {:?}", other),
    }
}

#[test]
fn decoder_stops_at_eof() {
    let mut decoder = HexDecoder::new();
    assert!(!decoder.feed("f.hex", 1, ":0100000001FE").unwrap());
    assert!(!decoder.eof_seen());
    assert!(decoder.feed("f.hex", 2, ":00000001FF").unwrap());
    assert!(decoder.eof_seen());
    assert_eq!(decoder.finish().unwrap(), vec![(0, 1)]);
}

#[test]
fn written_text_merged_back_is_the_same_image() {
    let mut memory = MemoryMap::new();
    for (a, b) in [(0x0u64, 1u8), (0x1, 2), (0x2_0000, 3), (0xFFFF_FFFF, 4)] {
        memory.set(a, b).unwrap();
    }
    let text = hex_text(&memory);
    for policy in [OverlapPolicy::Error, OverlapPolicy::Replace, OverlapPolicy::Ignore] {
        let pairs = parse_hex_file("out.hex", &lines(&text)).unwrap();
        let mut back = MemoryMap::new();
        back.merge_bytes(&pairs, policy, "out.hex").unwrap();
        assert_eq!(back.iter(), memory.iter());
    }
}

#[test]
fn addresses_above_4gib_wrap_on_write() {
    // extended linear address records hold 16 bits: 0x1_0000_0000 is written as 0x0
    let mut memory = MemoryMap::new();
    memory.set(0x1_0000_0000, 7).unwrap();
    let pairs = parse_hex_file("out.hex", &lines(&hex_text(&memory))).unwrap();
    assert_eq!(pairs, vec![(0, 7)]);
}

fn parse_detail(line: &str) -> String {
    match Record::parse(line) {
        Err(MergehexError::HexParse { detail }) => detail,
        other => panic!("unexpected {:?}", other),
    }
}

#[test]
fn parse_error_details() {
    assert_eq!(parse_detail("00000001FF"), "record does not start with ':'");
    assert_eq!(parse_detail(" :0000001FF "), "malformed record length: :0000001FF");
    assert_eq!(parse_detail(":0200000001FD"), "record byte count mismatch: expected 2, got 1");
    assert_eq!(
        parse_detail(":FF0000000102030405060708090A0B0C0D0E0F101112131415161718191A1B1C1D1E1F2021F5"),
        "record byte count mismatch: expected 255, got 33"
    );
    assert_eq!(parse_detail(":00000006FA"), "unsupported record type: 0x06");
    assert_eq!(parse_detail(":000000AB55"), "unsupported record type: 0xAB");
    assert_eq!(parse_detail(":0100000204F9"), "extended segment address must contain 2 bytes");
    assert_eq!(parse_detail(":03000003000000FA"), "start segment address must contain 4 bytes");
    assert_eq!(parse_detail(":0100000400FB"), "extended linear address must contain 2 bytes");
    assert_eq!(parse_detail(":03000005000000F8"), "start linear address must contain 4 bytes");
    assert!(parse_detail(":00000001GG").starts_with("invalid hex digit: "));
}

#[test]
fn hex_file_missing_eof_detail() {
    match parse_hex_file("f.hex", &lines(":0100000001FE\n")) {
        Err(MergehexError::HexParse { detail }) => assert_eq!(detail, "missing end-of-file record"),
        other => panic!("unexpected {:?}", other),
    }
}
