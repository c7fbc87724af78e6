use disk_scrutiny::rank::{rank, ScanEntry};
use disk_scrutiny::walk::{scan_from_walk, WalkFile};

fn wf(dir: &[&str], size: u64) -> WalkFile {
    WalkFile { dir: dir.iter().map(|c| c.to_string()).collect(), size }
}

#[test]
fn two_files_nested_tree() {
    // a/x.bin of 3,000,000 bytes and a/b/y.bin of 2,000,000 bytes:
    // root and a total 5,000,000, a/b totals 2,000,000.
    let files = vec![wf(&["a"], 3_000_000), wf(&["a", "b"], 2_000_000)];
    let r = scan_from_walk("root", &files);
    assert_eq!(r.len(), 3);
    assert_eq!(r[0].size_bytes, 5_000_000);
    assert_eq!(r[1].size_bytes, 5_000_000);
    assert_eq!(r[2].size_bytes, 2_000_000);
    let top: Vec<&str> = vec![r[0].label.as_str(), r[1].label.as_str()];
    assert!(top.contains(&"root"));
    assert!(top.contains(&"root/a"));
    assert_eq!(r[2].label, "root/a/b");
    assert_eq!(r[0].size_bytes as f64 / 1_000_000.0, 5.0);
    assert_eq!(r[2].size_bytes as f64 / 1_000_000.0, 2.0);
}

#[test]
fn empty_root_yields_empty_list() {
    let files: Vec<WalkFile> = Vec::new();
    let r = scan_from_walk("root", &files);
    assert_eq!(r.len(), 0);
}

#[test]
fn root_total_is_sum_of_all_file_sizes() {
    let files = vec![
        wf(&[], 10),
        wf(&["a"], 20),
        wf(&["a", "b", "c"], 30),
        wf(&["d"], 40),
    ];
    let r = scan_from_walk("top", &files);
    let root = r.iter().find(|e| e.label == "top").expect("root bucket");
    assert_eq!(root.size_bytes, 100);
}

#[test]
fn file_in_root_feeds_exactly_one_bucket() {
    let files = vec![wf(&[], 1234)];
    let r = scan_from_walk("root", &files);
    assert_eq!(r.len(), 1);
    assert_eq!(r[0].label, "root");
    assert_eq!(r[0].size_bytes, 1234);
}

#[test]
fn rescan_is_idempotent() {
    let files = vec![wf(&["a"], 7), wf(&["a", "b"], 9), wf(&[], 5)];
    let r1 = scan_from_walk("root", &files);
    let r2 = scan_from_walk("root", &files);
    assert_eq!(r1.len(), r2.len());
    for i in 0..r1.len() {
        assert_eq!(r1[i].label, r2[i].label);
        assert_eq!(r1[i].size_bytes, r2[i].size_bytes);
    }
}

#[test]
fn rank_caps_at_ten_and_is_non_increasing() {
    let mut files: Vec<WalkFile> = Vec::new();
    for i in 0..12u64 {
        files.push(WalkFile { dir: vec![format!("d{}", i)], size: i * 100 });
    }
    let r = scan_from_walk("root", &files);
    assert_eq!(r.len(), 10);
    for i in 1..r.len() {
        assert!(r[i - 1].size_bytes >= r[i].size_bytes);
    }
}

#[test]
fn rank_ties_keep_encounter_order() {
    let input = vec![
        ScanEntry { label: "a".to_string(), size_bytes: 5 },
        ScanEntry { label: "b".to_string(), size_bytes: 5 },
        ScanEntry { label: "c".to_string(), size_bytes: 9 },
        ScanEntry { label: "d".to_string(), size_bytes: 5 },
    ];
    let r = rank(input);
    assert_eq!(r.len(), 4);
    assert_eq!(r[0].label, "c");
    assert_eq!(r[1].label, "a");
    assert_eq!(r[2].label, "b");
    assert_eq!(r[3].label, "d");
}

#[test]
fn rank_empty_input() {
    let r = rank(Vec::new());
    assert_eq!(r.len(), 0);
}
