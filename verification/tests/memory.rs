use mergehex_rs::memory::{MemoryMap, OverlapPolicy};
use mergehex_rs::MergehexError;

#[test]
fn memory_map_sorted_iteration() {
    let mut map = MemoryMap::new();
    map.set(0x10, 1).unwrap();
    map.set(0x00, 2).unwrap();
    map.set(0x20, 3).unwrap();

    let pairs: Vec<_> = map.iter().into_iter().collect();
    assert_eq!(pairs, vec![(0x00, 2), (0x10, 1), (0x20, 3)]);
}

#[test]
fn overlap_error() {
    let mut map = MemoryMap::new();
    map.merge_bytes(&[(0x00, 1)], OverlapPolicy::Error, "a")
        .unwrap();
    let err = map
        .merge_bytes(&[(0x00, 2)], OverlapPolicy::Error, "b")
        .unwrap_err();
    assert!(matches!(err, MergehexError::Overlap { address: 0, .. }));
}

#[test]
fn overlap_replace() {
    let mut map = MemoryMap::new();
    map.merge_bytes(&[(0x00, 1)], OverlapPolicy::Error, "a")
        .unwrap();
    map.merge_bytes(&[(0x00, 2)], OverlapPolicy::Replace, "b")
        .unwrap();
    assert_eq!(map.iter().into_iter().next().unwrap().1, 2);
}

#[test]
fn chunks_detects_gaps() {
    let mut map = MemoryMap::new();
    map.set(0x00, 1).unwrap();
    map.set(0x01, 2).unwrap();
    map.set(0x03, 3).unwrap();
    let chunks = map.chunks();
    assert_eq!(chunks, vec![(0x00, vec![1, 2]), (0x03, vec![3])]);
}

#[test]
fn overlap_error_names_input_and_keeps_earlier_pairs() {
    let mut map = MemoryMap::new();
    map.set(0x05, 9).unwrap();
    let err = map
        .merge_bytes(&[(0x04, 1), (0x05, 2), (0x06, 3)], OverlapPolicy::Error, "b.hex")
        .unwrap_err();
    match err {
        MergehexError::Overlap { address, input } => {
            assert_eq!(address, 5);
            assert_eq!(input, "b.hex");
        }
        other => panic!("unexpected {:?}", other),
    }
    // the pair before the overlap was merged, the ones from the overlap on were not
    assert_eq!(map.iter(), vec![(0x04, 1), (0x05, 9)]);
}

#[test]
fn overlap_ignore_keeps_existing() {
    let mut map = MemoryMap::new();
    map.set(0x00, 1).unwrap();
    map.merge_bytes(&[(0x00, 2), (0x01, 3), (0x01, 4)], OverlapPolicy::Ignore, "b")
        .unwrap();
    assert_eq!(map.iter(), vec![(0x00, 1), (0x01, 3)]);
}

#[test]
fn replace_later_pair_wins() {
    let mut map = MemoryMap::new();
    map.set(0x00, 1).unwrap();
    map.merge_bytes(&[(0x00, 2), (0x01, 3), (0x01, 4)], OverlapPolicy::Replace, "b")
        .unwrap();
    assert_eq!(map.iter(), vec![(0x00, 2), (0x01, 4)]);
}

#[test]
fn error_policy_refuses_repeated_address_within_input() {
    let mut map = MemoryMap::new();
    assert!(map
        .merge_bytes(&[(0x07, 1), (0x07, 2)], OverlapPolicy::Error, "a")
        .is_err());
    assert_eq!(map.iter(), vec![(0x07, 1)]);
}

#[test]
fn insert_policies() {
    let mut map = MemoryMap::new();
    assert!(map.insert(1, 1, OverlapPolicy::Error, "a").is_ok());
    assert!(map.insert(1, 2, OverlapPolicy::Error, "a").is_err());
    assert!(map.insert(1, 3, OverlapPolicy::Ignore, "a").is_ok());
    assert_eq!(map.iter(), vec![(1, 1)]);
    assert!(map.insert(1, 4, OverlapPolicy::Replace, "a").is_ok());
    assert_eq!(map.iter(), vec![(1, 4)]);
}

#[test]
fn len_and_is_empty() {
    let mut map = MemoryMap::new();
    assert!(map.is_empty());
    assert_eq!(map.len(), 0);
    map.set(3, 3).unwrap();
    map.set(3, 4).unwrap();
    map.set(u64::MAX, 5).unwrap();
    assert!(!map.is_empty());
    assert_eq!(map.len(), 2);
}

#[test]
fn chunks_at_top_of_address_space() {
    let mut map = MemoryMap::new();
    map.set(u64::MAX - 1, 1).unwrap();
    map.set(u64::MAX, 2).unwrap();
    assert_eq!(map.chunks(), vec![(u64::MAX - 1, vec![1, 2])]);
    assert!(MemoryMap::new().chunks().is_empty());
}

#[test]
fn policy_names() {
    assert_eq!("error".parse::<OverlapPolicy>().unwrap(), OverlapPolicy::Error);
    assert_eq!("Replace".parse::<OverlapPolicy>().unwrap(), OverlapPolicy::Replace);
    assert_eq!("IGNORE".parse::<OverlapPolicy>().unwrap(), OverlapPolicy::Ignore);
    assert!(matches!(
        "keep".parse::<OverlapPolicy>(),
        Err(MergehexError::InvalidArgument { .. })
    ));
    assert_eq!(OverlapPolicy::default(), OverlapPolicy::Error);
}

#[test]
fn policy_error_detail() {
    match "Keep".parse::<OverlapPolicy>() {
        Err(MergehexError::InvalidArgument { detail }) => {
            assert_eq!(detail, "invalid overlap policy 'Keep'; expected 'error', 'replace', or 'ignore'")
        }
        other => panic!("unexpected {:?}", other),
    }
}
