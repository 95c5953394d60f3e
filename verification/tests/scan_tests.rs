use vulture::region::MemoryRegion;
use vulture::scan::ScanPredicate;
use vulture::snapshot::{RegionImage, Snapshot};
use vulture::value::{le_encode, le_u64_at, parse_value, ScanValue, ValueKind};
use vulture::errors::ValueParseError;

fn eligible_region(start: usize, size: usize) -> MemoryRegion {
    MemoryRegion { start, size, read: true, write: true, execute: false, file_backed: false }
}

fn file_backed_region(start: usize, size: usize) -> MemoryRegion {
    MemoryRegion { start, size, read: true, write: true, execute: false, file_backed: true }
}

fn read_only_region(start: usize, size: usize) -> MemoryRegion {
    MemoryRegion { start, size, read: true, write: false, execute: false, file_backed: false }
}

#[test]
fn scan_finds_exact_offsets() {
    let snap = Snapshot {
        images: vec![RegionImage {
            region: eligible_region(1000, 8),
            bytes: vec![4, 0, 0, 0, 4, 0, 0, 0],
        }],
    };
    let hits = snap.scan(&ScanValue::U32(4), ScanPredicate::Equal);
    assert_eq!(hits, vec![1000, 1004]);
}

#[test]
fn scan_stride_is_one_byte() {
    // Overlapping windows may both match: the stride is deliberately coarse.
    let snap = Snapshot {
        images: vec![RegionImage {
            region: eligible_region(500, 5),
            bytes: vec![0, 0, 0, 0, 0],
        }],
    };
    let hits = snap.scan(&ScanValue::U32(0), ScanPredicate::Equal);
    assert_eq!(hits, vec![500, 501]);
}

#[test]
fn region_filter_excludes_unwritable_and_file_backed() {
    // Matching bytes sit in all three regions; only the eligible one counts.
    let snap = Snapshot {
        images: vec![
            RegionImage { region: file_backed_region(100, 4), bytes: vec![7, 0, 0, 0] },
            RegionImage { region: eligible_region(200, 4), bytes: vec![7, 0, 0, 0] },
            RegionImage { region: read_only_region(300, 4), bytes: vec![7, 0, 0, 0] },
        ],
    };
    let hits = snap.scan(&ScanValue::U32(7), ScanPredicate::Equal);
    assert_eq!(hits, vec![200]);
}

#[test]
fn pointer_style_hits_lie_in_eligible_regions() {
    // A pointer scan is a value scan at native width: every address returned
    // lies inside an eligible region.
    let target: usize = 0xdead_beef;
    let mut bytes = le_encode(target as u64, 8);
    bytes.extend_from_slice(&[0u8; 8]);
    let region = eligible_region(4096, 16);
    let snap = Snapshot {
        images: vec![
            RegionImage { region, bytes },
            RegionImage {
                region: file_backed_region(8192, 8),
                bytes: le_encode(target as u64, 8),
            },
        ],
    };
    let hits = snap.scan(&ScanValue::U64(target as u64), ScanPredicate::Equal);
    assert_eq!(hits, vec![4096]);
    for a in &hits {
        assert!(region.start <= *a && *a < region.start + region.size);
    }
}

#[test]
fn prune_with_always_true_predicate_is_identity() {
    let snap = Snapshot {
        images: vec![RegionImage {
            region: eligible_region(1000, 8),
            bytes: vec![4, 0, 0, 0, 4, 0, 0, 0],
        }],
    };
    let cands = snap.scan(&ScanValue::U32(4), ScanPredicate::Equal);
    let pruned = snap.prune(&cands, &ScanValue::U32(4), ScanPredicate::Any);
    assert_eq!(pruned, cands);
}

#[test]
fn initialize_then_prune_matches_initialize_alone() {
    let snap = Snapshot {
        images: vec![
            RegionImage {
                region: eligible_region(1000, 12),
                bytes: vec![9, 0, 0, 0, 1, 9, 0, 0, 0, 2, 3, 4],
            },
            RegionImage { region: read_only_region(5000, 4), bytes: vec![9, 0, 0, 0] },
        ],
    };
    let v = ScanValue::U32(9);
    let init = snap.scan(&v, ScanPredicate::Equal);
    let pruned = snap.prune(&init, &v, ScanPredicate::Equal);
    assert_eq!(pruned, init);
}

#[test]
fn prune_never_grows() {
    let snap = Snapshot {
        images: vec![RegionImage {
            region: eligible_region(1000, 8),
            bytes: vec![4, 0, 0, 0, 4, 0, 0, 0],
        }],
    };
    let cands = snap.scan(&ScanValue::U32(4), ScanPredicate::Equal);
    // Narrow against a value the memory does not hold: candidates may only leave.
    let step1 = snap.prune(&cands, &ScanValue::U32(5), ScanPredicate::Equal);
    let step2 = snap.prune(&step1, &ScanValue::U32(6), ScanPredicate::Equal);
    assert!(step1.len() <= cands.len());
    assert!(step2.len() <= step1.len());
    assert_eq!(step1, Vec::<usize>::new());
}

#[test]
fn prune_drops_unreadable_candidates() {
    let snap = Snapshot {
        images: vec![RegionImage {
            region: eligible_region(1000, 4),
            bytes: vec![4, 0, 0, 0],
        }],
    };
    // 9999 lies in no region at all; it cannot survive a narrowing pass.
    let cands = vec![1000, 9999];
    let pruned = snap.prune(&cands, &ScanValue::U32(4), ScanPredicate::Equal);
    assert_eq!(pruned, vec![1000]);
}

#[test]
fn little_endian_round_trip() {
    let bytes = le_encode(0x0102_0304, 4);
    assert_eq!(bytes, vec![4, 3, 2, 1]);
    assert_eq!(le_u64_at(&bytes, 0, 4), 0x0102_0304);

    let wide = le_encode(0xfeed_face_cafe_f00d, 8);
    assert_eq!(le_u64_at(&wide, 0, 8), 0xfeed_face_cafe_f00d);

    let one = le_encode(255, 1);
    assert_eq!(one, vec![255]);
    assert_eq!(le_u64_at(&one, 0, 1), 255);
}

#[test]
fn snapshot_read_value_decodes_window() {
    let snap = Snapshot {
        images: vec![RegionImage {
            region: eligible_region(10, 4),
            bytes: vec![1, 2, 3, 4],
        }],
    };
    assert_eq!(snap.read_value(10, &ScanValue::U16(0)), Some(0x0201));
    assert_eq!(snap.read_value(12, &ScanValue::U16(0)), Some(0x0403));
    assert_eq!(snap.read_value(13, &ScanValue::U16(0)), None);
    assert_eq!(snap.read_value(9, &ScanValue::U8(0)), None);
}

#[test]
fn parse_value_accepts_digits() {
    assert_eq!(parse_value(&"7".to_string(), ValueKind::U64), Ok(ScanValue::U64(7)));
    assert_eq!(parse_value(&"255".to_string(), ValueKind::U8), Ok(ScanValue::U8(255)));
    assert_eq!(
        parse_value(&"18446744073709551615".to_string(), ValueKind::U64),
        Ok(ScanValue::U64(u64::MAX))
    );
}

#[test]
fn parse_value_rejects_empty() {
    assert_eq!(parse_value(&"".to_string(), ValueKind::U32), Err(ValueParseError::Empty));
}

#[test]
fn parse_value_rejects_non_digits() {
    assert_eq!(parse_value(&"12a".to_string(), ValueKind::U32), Err(ValueParseError::InvalidDigit));
    assert_eq!(parse_value(&"-5".to_string(), ValueKind::U32), Err(ValueParseError::InvalidDigit));
}

#[test]
fn parse_value_rejects_overflow() {
    assert_eq!(parse_value(&"256".to_string(), ValueKind::U8), Err(ValueParseError::Overflow));
    assert_eq!(
        parse_value(&"18446744073709551616".to_string(), ValueKind::U64),
        Err(ValueParseError::Overflow)
    );
}
