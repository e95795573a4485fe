use matching_core::journal::{read_frames, write_frame};
use matching_core::snapshot::SnapshotStore;

#[test]
fn frames_carry_their_length_least_significant_byte_first() {
    let mut out: Vec<u8> = vec![9];
    write_frame(&mut out, &vec![1, 2, 3]);
    assert_eq!(out, vec![9, 3, 0, 0, 0, 1, 2, 3]);
    let mut long: Vec<u8> = Vec::new();
    let payload: Vec<u8> = (0..0x1_02_03u32).map(|i| (i % 251) as u8).collect();
    write_frame(&mut long, &payload);
    assert_eq!(&long[..4], &[0x03, 0x02, 0x01, 0x00]);
    assert_eq!(&long[4..], &payload[..]);
}

#[test]
fn journal_round_trip() {
    let payloads: Vec<Vec<u8>> = vec![vec![], vec![7], vec![1, 2, 3, 4, 5], vec![0; 300]];
    let mut bytes: Vec<u8> = Vec::new();
    for p in payloads.iter() {
        write_frame(&mut bytes, p);
    }
    assert_eq!(read_frames(&bytes), payloads);
}

#[test]
fn reading_ends_at_a_broken_frame() {
    let mut bytes: Vec<u8> = Vec::new();
    write_frame(&mut bytes, &vec![1, 2, 3]);
    write_frame(&mut bytes, &vec![4, 5]);
    let whole = bytes.len();
    for cut in 0..whole {
        let frames = read_frames(&bytes[..cut].to_vec());
        let expect: Vec<Vec<u8>> = if cut < 7 { vec![] } else { vec![vec![1, 2, 3]] };
        assert_eq!(frames, expect);
    }
    assert_eq!(read_frames(&bytes), vec![vec![1, 2, 3], vec![4, 5]]);
    assert!(read_frames(&vec![]).is_empty());
    assert!(read_frames(&vec![255, 255, 255, 255, 1]).is_empty());
}

#[test]
fn snapshot_names() {
    assert_eq!(SnapshotStore::file_name(0), b"snapshot_0.bin".to_vec());
    assert_eq!(SnapshotStore::file_name(42), b"snapshot_42.bin".to_vec());
    assert_eq!(
        SnapshotStore::file_name(u64::MAX),
        b"snapshot_18446744073709551615.bin".to_vec()
    );
    assert_eq!(SnapshotStore::parse_name(&b"snapshot_42.bin".to_vec()), Some(42));
    assert_eq!(SnapshotStore::parse_name(&b"snapshot_007.bin".to_vec()), Some(7));
    assert_eq!(
        SnapshotStore::parse_name(&b"snapshot_18446744073709551615.bin".to_vec()),
        Some(u64::MAX)
    );
    assert_eq!(SnapshotStore::parse_name(&b"snapshot_18446744073709551616.bin".to_vec()), None);
    assert_eq!(SnapshotStore::parse_name(&b"snapshot_.bin".to_vec()), None);
    assert_eq!(SnapshotStore::parse_name(&b"snapshot_1x.bin".to_vec()), None);
    assert_eq!(SnapshotStore::parse_name(&b"snapshot_-1.bin".to_vec()), None);
    assert_eq!(SnapshotStore::parse_name(&b"snapshot_1.bak".to_vec()), None);
    assert_eq!(SnapshotStore::parse_name(&b"Snapshot_1.bin".to_vec()), None);
    assert_eq!(SnapshotStore::parse_name(&b"1.bin".to_vec()), None);
    for id in [1u64, 9, 10, 99, 100, 12345678901234567890] {
        assert_eq!(SnapshotStore::parse_name(&SnapshotStore::file_name(id)), Some(id));
    }
}

#[test]
fn latest_snapshot_is_the_greatest_number() {
    let names: Vec<Vec<u8>> = vec![
        b"snapshot_3.bin".to_vec(),
        b"notes.txt".to_vec(),
        b"snapshot_12.bin".to_vec(),
        b"snapshot_9.bin".to_vec(),
        b"snapshot_x.bin".to_vec(),
    ];
    assert_eq!(SnapshotStore::get_latest_seq_id(&names), Some(12));
    assert_eq!(SnapshotStore::get_latest_seq_id(&vec![b"readme".to_vec()]), None);
    assert_eq!(SnapshotStore::get_latest_seq_id(&vec![]), None);
    let store = SnapshotStore::new(String::from("snapshots"));
    assert_eq!(store.base_path, "snapshots");
}
