//! Merging whole inputs, as the command line does.
use mergehex_rs::hex::{parse_hex_file, write_hex};
use mergehex_rs::input::InputSpec;
use mergehex_rs::memory::{MemoryMap, OverlapPolicy};
use mergehex_rs::MergehexError;

fn lines(text: &str) -> Vec<String> {
    text.lines().map(|l| l.to_string()).collect()
}

fn merge_hex(memory: &mut MemoryMap, name: &str, text: &str, policy: OverlapPolicy) -> Result<(), MergehexError> {
    let spec = InputSpec::parse(name, None)?;
    let pairs = parse_hex_file(name, &lines(text))?;
    spec.merge_into(memory, policy, &pairs)
}

fn output(memory: &MemoryMap) -> String {
    let mut out = Vec::new();
    write_hex(&mut out, memory);
    String::from_utf8(out).unwrap()
}

#[test]
fn merge_two_hex_files() {
    let mut memory = MemoryMap::new();
    merge_hex(&mut memory, "a.hex", ":020000020000FC\n:0400000001020304F2\n:00000001FF\n", OverlapPolicy::Error).unwrap();
    merge_hex(&mut memory, "b.hex", ":021000000506E3\n:00000001FF\n", OverlapPolicy::Error).unwrap();
    let merged = output(&memory);
    assert!(merged.contains(":0400000001020304F2"));
    assert!(merged.contains(":021000000506E3"));
    assert!(merged.contains(":00000001FF"));
}

#[test]
fn merge_hex_and_binary_with_offset() {
    let mut memory = MemoryMap::new();
    merge_hex(&mut memory, "fw.hex", ":040000000A0B0C0DCE\n:00000001FF\n", OverlapPolicy::Error).unwrap();
    let spec = InputSpec::parse("data.bin@0x1000", None).unwrap();
    let pairs = spec.binary_pairs(&[0x10, 0x11, 0x12, 0x13]);
    spec.merge_into(&mut memory, OverlapPolicy::Error, &pairs).unwrap();
    let merged = output(&memory);
    assert!(merged.contains(":040000000A0B0C0DCE"));
    assert!(merged.contains(":0410000010111213A6"));
}

#[test]
fn overlap_error_by_default() {
    let mut memory = MemoryMap::new();
    merge_hex(&mut memory, "a.hex", ":040000000A0B0C0DCE\n:00000001FF\n", OverlapPolicy::default()).unwrap();
    let err = merge_hex(&mut memory, "b.hex", ":0400000001020304F2\n:00000001FF\n", OverlapPolicy::default()).unwrap_err();
    assert!(matches!(err, MergehexError::Overlap { address: 0, .. }));
}

#[test]
fn overlap_replace_policy() {
    let mut memory = MemoryMap::new();
    merge_hex(&mut memory, "a.hex", ":040000000A0B0C0DCE\n:00000001FF\n", OverlapPolicy::Replace).unwrap();
    merge_hex(&mut memory, "b.hex", ":0400000001020304F2\n:00000001FF\n", OverlapPolicy::Replace).unwrap();
    assert!(output(&memory).contains(":0400000001020304F2"));
}
