use std::path::PathBuf;

use mergehex_rs::input::{parse_format, InputFormat, InputSpec};
use mergehex_rs::memory::{MemoryMap, OverlapPolicy};
use mergehex_rs::MergehexError;

#[test]
fn parse_bin_with_offset() {
    let spec = InputSpec::parse("fw.bin@0x1000", None).unwrap();
    assert_eq!(PathBuf::from(&spec.path), PathBuf::from("fw.bin"));
    assert_eq!(spec.format, InputFormat::Bin);
    assert_eq!(spec.bin_offset, 0x1000);
}

#[test]
fn parse_hex_without_offset() {
    let spec = InputSpec::parse("fw.hex", None).unwrap();
    assert_eq!(PathBuf::from(&spec.path), PathBuf::from("fw.hex"));
    assert_eq!(spec.format, InputFormat::Hex);
    assert_eq!(spec.bin_offset, 0);
}

#[test]
fn offset_on_hex_is_rejected() {
    let err = InputSpec::parse("fw.hex@0x100", None).unwrap_err();
    assert!(matches!(err, MergehexError::InvalidArgument { .. }));
}

#[test]
fn offsets_decimal_hex_and_errors() {
    let ok = |s: &str| InputSpec::parse(s, None).unwrap().bin_offset;
    assert_eq!(ok("a.bin@4096"), 4096);
    assert_eq!(ok("a.bin@0X1f"), 0x1f);
    assert_eq!(ok("a.bin@ 0x10 "), 0x10);
    assert_eq!(ok("a.bin@010"), 8);
    assert_eq!(ok("a.bin@0777"), 0o777);
    assert_eq!(ok("a.bin@0"), 0);
    assert_eq!(ok("a.bin@00"), 0);
    assert_eq!(ok("a.bin@10"), 10);
    assert_eq!(ok("a.bin@18446744073709551615"), u64::MAX);
    for bad in ["a.bin@", "a.bin@  ", "a.bin@0x", "a.bin@zz", "a.bin@18446744073709551616", "a.bin@-1", "a.bin@09", "a.bin@0x10000000000000000"] {
        assert!(
            matches!(InputSpec::parse(bad, None), Err(MergehexError::InvalidArgument { .. })),
            "{}",
            bad
        );
    }
}

#[test]
fn only_first_at_splits() {
    let spec = InputSpec::parse("dir@x/a.bin@0x10", Some(InputFormat::Bin));
    // the path ends at the first '@'; what follows is not a number
    assert!(matches!(spec, Err(MergehexError::InvalidArgument { .. })));
}

#[test]
fn format_detection() {
    assert_eq!(InputSpec::parse("x.IHEX", None).unwrap().format, InputFormat::Hex);
    assert_eq!(InputSpec::parse("x.axf", None).unwrap().format, InputFormat::Elf);
    assert_eq!(InputSpec::parse("dir/x.o", None).unwrap().format, InputFormat::Elf);
    assert_eq!(InputSpec::parse("x.txt", Some(InputFormat::Bin)).unwrap().format, InputFormat::Bin);
    match InputSpec::parse("firmware", None) {
        Err(MergehexError::UnsupportedFormat { path, .. }) => assert_eq!(path, "firmware"),
        other => panic!("unexpected {:?}", other),
    }
    assert_eq!(InputFormat::from_extension("OUT"), Some(InputFormat::Elf));
    assert_eq!(InputFormat::from_extension("hexx"), None);
}

#[test]
fn from_parts_prefers_explicit_format() {
    let spec = InputSpec::from_parts("x.hex", Some(InputFormat::Hex), Some("0x20"), Some(InputFormat::Bin)).unwrap();
    assert_eq!(spec.format, InputFormat::Bin);
    assert_eq!(spec.bin_offset, 0x20);
    assert!(InputSpec::from_parts("x", None, None, None).is_err());
}

#[test]
fn format_names() {
    assert_eq!(parse_format("HEX").unwrap(), Some(InputFormat::Hex));
    assert_eq!(parse_format("ihex").unwrap(), Some(InputFormat::Hex));
    assert_eq!(parse_format("Binary").unwrap(), Some(InputFormat::Bin));
    assert_eq!(parse_format("elf").unwrap(), Some(InputFormat::Elf));
    assert_eq!(parse_format("auto").unwrap(), None);
    assert_eq!(parse_format("AUTO").unwrap(), None);
    // with `auto`, each input's format comes from its extension
    let auto = parse_format("Auto").unwrap();
    assert_eq!(InputSpec::parse("a.hex", auto).unwrap().format, InputFormat::Hex);
    assert_eq!(InputSpec::parse("b.bin@0x10", auto).unwrap().format, InputFormat::Bin);
    assert!(matches!(parse_format("axf"), Err(MergehexError::InvalidArgument { .. })));
}

#[test]
fn binary_pairs_start_at_offset() {
    let spec = InputSpec::parse("d.bin@0x1000", None).unwrap();
    assert_eq!(
        spec.binary_pairs(&[0x10, 0x11, 0x12]),
        vec![(0x1000, 0x10), (0x1001, 0x11), (0x1002, 0x12)]
    );
    assert!(spec.binary_pairs(&[]).is_empty());
}

#[test]
fn merge_into_reports_this_input() {
    let spec = InputSpec::parse("d.bin@0x10", None).unwrap();
    let mut memory = MemoryMap::new();
    memory.set(0x11, 0).unwrap();
    let pairs = spec.binary_pairs(&[1, 2]);
    match spec.merge_into(&mut memory, OverlapPolicy::Error, &pairs) {
        Err(MergehexError::Overlap { address, input }) => {
            assert_eq!(address, 0x11);
            assert_eq!(input, "d.bin");
        }
        other => panic!("unexpected {:?}", other),
    }
    assert!(spec.merge_into(&mut memory, OverlapPolicy::Replace, &pairs).is_ok());
    assert_eq!(memory.iter(), vec![(0x10, 1), (0x11, 2)]);
}

#[test]
fn error_details() {
    match InputSpec::parse("fw.hex@0x100", None) {
        Err(MergehexError::InvalidArgument { detail }) => {
            assert_eq!(detail, "offset is only supported for binary inputs: fw.hex")
        }
        other => panic!("unexpected {:?}", other),
    }
    match InputSpec::parse("a.bin@ ", None) {
        Err(MergehexError::InvalidArgument { detail }) => assert_eq!(detail, "empty offset"),
        other => panic!("unexpected {:?}", other),
    }
    match InputSpec::parse("a.bin@ zz ", None) {
        Err(MergehexError::InvalidArgument { detail }) => assert!(detail.starts_with("invalid offset 'zz': ")),
        other => panic!("unexpected {:?}", other),
    }
    match InputSpec::parse("firmware", None) {
        Err(MergehexError::UnsupportedFormat { detail, .. }) => {
            assert_eq!(detail, "unable to detect file format from extension; use --format")
        }
        other => panic!("unexpected {:?}", other),
    }
    match parse_format("Srec") {
        Err(MergehexError::InvalidArgument { detail }) => {
            assert_eq!(detail, "invalid format 'Srec'; expected 'hex', 'bin', or 'elf'")
        }
        other => panic!("unexpected {:?}", other),
    }
}

#[test]
fn extension_detection_cases() {
    let fmt = |s: &str| InputSpec::parse(s, None).map(|spec| spec.format);
    assert_eq!(fmt("x.HEX").unwrap(), InputFormat::Hex);
    assert_eq!(fmt("a.b.bin").unwrap(), InputFormat::Bin);
    assert_eq!(fmt("fw.out").unwrap(), InputFormat::Elf);
    // a leading dot alone is no extension
    assert!(matches!(fmt(".hex"), Err(MergehexError::UnsupportedFormat { .. })));
    // the extension is the one of the file name, not of a directory
    assert!(matches!(fmt("dir.hex/fw"), Err(MergehexError::UnsupportedFormat { .. })));
    assert!(matches!(fmt("fw.txt"), Err(MergehexError::UnsupportedFormat { .. })));
}

#[test]
fn extension_of_paths_with_directories() {
    let spec = InputSpec::parse("dir/fw.bin@0x10", None).unwrap();
    assert_eq!(spec.format, InputFormat::Bin);
    assert_eq!(spec.bin_offset, 0x10);
    assert_eq!(InputSpec::parse("/tmp/x.y/a.hex", None).unwrap().format, InputFormat::Hex);
    assert!(matches!(
        InputSpec::parse("dir/.hex", None),
        Err(MergehexError::UnsupportedFormat { .. })
    ));
}
