use disk_scrutiny::aggregate::{scan_from_records, scan_select, select_engine, ScanEngine};
use disk_scrutiny::mft::{
    device_path_for, mft_record_count, parse_boot_sector, parse_file_record, FileRecord,
};
use disk_scrutiny::os_identity::TargetOS;
use disk_scrutiny::walk::{scan_from_walk, WalkFile};

fn put_u16(b: &mut [u8], o: usize, v: u16) {
    b[o..o + 2].copy_from_slice(&v.to_le_bytes());
}

fn put_u32(b: &mut [u8], o: usize, v: u32) {
    b[o..o + 4].copy_from_slice(&v.to_le_bytes());
}

fn boot_bytes() -> Vec<u8> {
    let mut b = vec![0u8; 512];
    b[3..11].copy_from_slice(b"NTFS    ");
    // 512 bytes per sector, 8 sectors per cluster
    b[11] = 0;
    b[12] = 2;
    b[13] = 8;
    // MFT starts at cluster 4
    b[48] = 4;
    // file records of 2^(256 - 246) = 1024 bytes
    b[64] = 246;
    b
}

fn file_record(flags: u16, name: Option<(&str, u64)>, data: Option<u32>) -> Vec<u8> {
    let mut b = vec![0u8; 1024];
    b[0..4].copy_from_slice(b"FILE");
    put_u16(&mut b, 20, 56);
    put_u16(&mut b, 22, flags);
    let mut o: usize = 56;
    if let Some((nm, parent)) = name {
        let units: Vec<u16> = nm.encode_utf16().collect();
        let vlen = 66 + 2 * units.len();
        let alen = 24 + vlen;
        put_u32(&mut b, o, 0x30);
        put_u32(&mut b, o + 4, alen as u32);
        b[o + 8] = 0;
        put_u32(&mut b, o + 16, vlen as u32);
        put_u16(&mut b, o + 20, 24);
        let v = o + 24;
        b[v..v + 6].copy_from_slice(&parent.to_le_bytes()[0..6]);
        b[v + 64] = units.len() as u8;
        b[v + 65] = 1;
        for (i, u) in units.iter().enumerate() {
            put_u16(&mut b, v + 66 + 2 * i, *u);
        }
        o += alen;
    }
    if let Some(dl) = data {
        put_u32(&mut b, o, 0x80);
        put_u32(&mut b, o + 4, 24);
        b[o + 8] = 0;
        put_u32(&mut b, o + 16, dl);
        o += 24;
    }
    put_u32(&mut b, o, 0xFFFF_FFFF);
    b
}

#[test]
fn boot_sector_parses() {
    let b = boot_bytes();
    let bp = parse_boot_sector(&b).expect("valid boot sector");
    assert_eq!(bp.record_size, 1024);
    assert_eq!(bp.mft_start, 4 * 512 * 8);
}

#[test]
fn boot_sector_bad_signature_fails() {
    let mut b = boot_bytes();
    b[3] = b'X';
    assert!(parse_boot_sector(&b).is_none());
    assert!(parse_boot_sector(&[0u8; 100]).is_none());
}

#[test]
fn record_count_from_data_length() {
    assert_eq!(mft_record_count(16384, 1024), 16);
    assert_eq!(mft_record_count(16383, 1024), 15);
}

#[test]
fn file_record_parses() {
    let b = file_record(1, Some(("a.txt", 5)), Some(3000));
    let rec = parse_file_record(&b, 7).expect("valid record");
    assert_eq!(rec.record_number, 7);
    assert!(rec.in_use);
    assert_eq!(rec.name.as_deref(), Some("a.txt"));
    assert_eq!(rec.parent, 5);
    assert_eq!(rec.data_len, Some(3000));
}

#[test]
fn file_record_in_use_clear() {
    let b = file_record(0, Some(("a.txt", 5)), Some(3000));
    let rec = parse_file_record(&b, 7).expect("valid record");
    assert!(!rec.in_use);
}

#[test]
fn file_record_bad_signature_fails() {
    let mut b = file_record(1, Some(("a.txt", 5)), Some(3000));
    b[0] = b'X';
    assert!(parse_file_record(&b, 7).is_none());
}

#[test]
fn file_record_truncated_attribute_fails() {
    let mut b = file_record(1, Some(("a.txt", 5)), Some(3000));
    // shrink the name attribute's length below the attribute header size
    put_u32(&mut b, 56 + 4, 8);
    assert!(parse_file_record(&b, 7).is_none());
}

#[test]
fn unnamed_bucket_gets_synthetic_label() {
    let recs = vec![FileRecord {
        record_number: 7,
        in_use: true,
        name: Some("x.bin".to_string()),
        parent: 5,
        data_len: Some(3000),
    }];
    let r = scan_from_records(&recs);
    assert_eq!(r.len(), 1);
    assert_eq!(r[0].label, "dir_5");
    assert_eq!(r[0].size_bytes, 3000);
}

#[test]
fn bucket_is_labelled_by_parent_name() {
    let recs = vec![
        FileRecord {
            record_number: 5,
            in_use: true,
            name: Some("mydir".to_string()),
            parent: 2,
            data_len: None,
        },
        FileRecord {
            record_number: 7,
            in_use: true,
            name: Some("f.bin".to_string()),
            parent: 5,
            data_len: Some(3000),
        },
    ];
    let r = scan_from_records(&recs);
    assert_eq!(r.len(), 1);
    assert_eq!(r[0].label, "mydir");
    assert_eq!(r[0].size_bytes, 3000);
}

#[test]
fn unused_record_contributes_to_no_bucket() {
    let base = vec![FileRecord {
        record_number: 7,
        in_use: true,
        name: Some("x.bin".to_string()),
        parent: 5,
        data_len: Some(3000),
    }];
    let mut with_unused = base.clone();
    with_unused.push(FileRecord {
        record_number: 8,
        in_use: false,
        name: Some("ghost.bin".to_string()),
        parent: 5,
        data_len: Some(9999),
    });
    let r1 = scan_from_records(&base);
    let r2 = scan_from_records(&with_unused);
    assert_eq!(r1.len(), r2.len());
    for i in 0..r1.len() {
        assert_eq!(r1[i].label, r2[i].label);
        assert_eq!(r1[i].size_bytes, r2[i].size_bytes);
    }
}

#[test]
fn sizes_accumulate_per_parent() {
    let recs = vec![
        FileRecord {
            record_number: 10,
            in_use: true,
            name: Some("a".to_string()),
            parent: 5,
            data_len: Some(100),
        },
        FileRecord {
            record_number: 11,
            in_use: true,
            name: Some("b".to_string()),
            parent: 5,
            data_len: Some(250),
        },
        FileRecord {
            record_number: 12,
            in_use: true,
            name: Some("c".to_string()),
            parent: 9,
            data_len: Some(40),
        },
    ];
    let r = scan_from_records(&recs);
    assert_eq!(r.len(), 2);
    assert_eq!(r[0].label, "dir_5");
    assert_eq!(r[0].size_bytes, 350);
    assert_eq!(r[1].label, "dir_9");
    assert_eq!(r[1].size_bytes, 40);
}

#[test]
fn device_path_uses_first_two_characters() {
    let d = device_path_for("C:/Users").expect("long enough");
    assert_eq!(d, "\\\\.\\C:");
}

#[test]
fn device_path_too_short_is_invalid() {
    assert!(device_path_for("C").is_none());
    assert!(device_path_for("").is_none());
}

#[test]
fn engine_selection_by_platform() {
    assert_eq!(select_engine(TargetOS::Windows), ScanEngine::Mft);
    assert_eq!(select_engine(TargetOS::Linux), ScanEngine::Walk);
    assert_eq!(select_engine(TargetOS::MacOS), ScanEngine::Walk);
    assert_eq!(select_engine(TargetOS::BSD), ScanEngine::Walk);
    assert_eq!(select_engine(TargetOS::Unknown), ScanEngine::Walk);
}

#[test]
fn fallback_output_matches_direct_walk() {
    let files = vec![
        WalkFile { dir: vec!["a".to_string()], size: 3_000_000 },
        WalkFile { dir: vec!["a".to_string(), "b".to_string()], size: 2_000_000 },
    ];
    let fallback = scan_select(TargetOS::Windows, None, "root", &files);
    let direct = scan_from_walk("root", &files);
    assert_eq!(fallback.len(), direct.len());
    for i in 0..direct.len() {
        assert_eq!(fallback[i].label, direct[i].label);
        assert_eq!(fallback[i].size_bytes, direct[i].size_bytes);
    }
}

#[test]
fn windows_with_records_uses_mft_engine() {
    let recs = vec![FileRecord {
        record_number: 7,
        in_use: true,
        name: Some("x.bin".to_string()),
        parent: 5,
        data_len: Some(3000),
    }];
    let files: Vec<WalkFile> = Vec::new();
    let r = scan_select(TargetOS::Windows, Some(&recs), "root", &files);
    assert_eq!(r.len(), 1);
    assert_eq!(r[0].label, "dir_5");
    assert_eq!(r[0].size_bytes, 3000);
}

#[test]
fn parsed_record_feeds_its_parent_bucket() {
    let b = file_record(1, Some(("a.txt", 5)), Some(3000));
    let rec = parse_file_record(&b, 7).expect("valid record");
    let r = scan_from_records(&vec![rec]);
    assert_eq!(r.len(), 1);
    assert_eq!(r[0].label, "dir_5");
    assert_eq!(r[0].size_bytes, 3000);
}

#[test]
fn boot_sector_record_size_in_clusters() {
    let mut b = boot_bytes();
    // a positive value counts whole clusters: 2 clusters of 4096 bytes
    b[64] = 2;
    let bp = parse_boot_sector(&b).expect("valid boot sector");
    assert_eq!(bp.record_size, 8192);
}

#[test]
fn record_without_data_attribute_feeds_nothing() {
    let b = file_record(1, Some(("onlyname", 3)), None);
    let rec = parse_file_record(&b, 4).expect("valid record");
    assert_eq!(rec.data_len, None);
    let r = scan_from_records(&vec![rec]);
    assert_eq!(r.len(), 0);
}
