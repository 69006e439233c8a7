use dpms_sync::baseline::{parse_baseline, render_baseline, BaselineError};
use dpms_sync::channel::{ByteBuffer, ReadOutcome};
use dpms_sync::decimal::parse_decimal;
use dpms_sync::encode::{encode_step, render_manifest, EncodeStep};
use dpms_sync::negotiate::upload_set;
use dpms_sync::path::{compare_paths, is_hidden, join_path, normalize_path, PathOrder};
use dpms_sync::scan::{build_snapshot, ScanEntry};
use dpms_sync::snapshot::{FileMeta, FileRecord, Snapshot};

fn strings(v: &[&str]) -> Vec<String> {
    v.iter().map(|s| s.to_string()).collect()
}

#[test]
fn hidden_names() {
    assert!(is_hidden(".git"));
    assert!(!is_hidden("src"));
    assert!(!is_hidden(""));
}

#[test]
fn path_order() {
    assert_eq!(compare_paths("a", "b"), PathOrder::Before);
    assert_eq!(compare_paths("a/b", "a"), PathOrder::After);
    assert_eq!(compare_paths("dir/x", "dir/x"), PathOrder::Same);
    assert_eq!(compare_paths("", "a"), PathOrder::Before);
}

#[test]
fn normalize_below_base() {
    let path = strings(&["data", "sub", "file.txt"]);
    assert_eq!(normalize_path(&path, &strings(&["data"])), Some("sub/file.txt".to_string()));
    assert_eq!(normalize_path(&path, &strings(&["other"])), None);
    assert_eq!(normalize_path(&strings(&["data"]), &strings(&["data", "x"])), None);
    assert_eq!(join_path(&path, 0), "data/sub/file.txt".to_string());
}

#[test]
fn scan_skips_hidden_and_unreadable() {
    let meta = |size, modified_at| Some(FileMeta { size, modified_at });
    let entries = vec![
        ScanEntry { components: strings(&["b.txt"]), stat: meta(2, 20) },
        ScanEntry { components: strings(&[".git", "config"]), stat: meta(3, 30) },
        ScanEntry { components: strings(&["dir", ".hidden"]), stat: meta(4, 40) },
        ScanEntry { components: strings(&["dir", "a.txt"]), stat: meta(1, 10) },
        ScanEntry { components: strings(&["vanished"]), stat: None },
    ];
    let snap = build_snapshot(&entries);
    let paths: Vec<String> = snap.records.iter().map(|r| r.path.clone()).collect();
    assert_eq!(paths, strings(&["b.txt", "dir/a.txt"]));
    assert_eq!(snap.get("dir/a.txt"), Some(FileMeta { size: 1, modified_at: 10 }));
    assert_eq!(snap.get("vanished"), None);
}

#[test]
fn snapshot_keeps_first_record() {
    let mut s = Snapshot::new();
    assert!(s.insert(FileRecord { path: "a".to_string(), size: 1, modified_at: 1 }));
    assert!(!s.insert(FileRecord { path: "a".to_string(), size: 9, modified_at: 9 }));
    assert_eq!(s.len(), 1);
    assert_eq!(s.get("a"), Some(FileMeta { size: 1, modified_at: 1 }));
}

#[test]
fn decimal_numbers() {
    assert_eq!(parse_decimal("0"), Some(0));
    assert_eq!(parse_decimal("1719990000123"), Some(1719990000123));
    assert_eq!(parse_decimal("18446744073709551615"), Some(u64::MAX));
    assert_eq!(parse_decimal("18446744073709551616"), None);
    assert_eq!(parse_decimal("007"), None);
    assert_eq!(parse_decimal("12a"), None);
    assert_eq!(parse_decimal(""), None);
}

fn sample() -> Snapshot {
    let mut s = Snapshot::new();
    s.insert(FileRecord { path: "b/c.txt".to_string(), size: 5, modified_at: 1719990000123 });
    s.insert(FileRecord { path: "a.txt".to_string(), size: u64::MAX, modified_at: 0 });
    s
}

#[test]
fn baseline_text_form() {
    let text = render_baseline(&sample()).unwrap();
    assert_eq!(text, "a.txt\t0\t18446744073709551615\nb/c.txt\t1719990000123\t5\n");
}

#[test]
fn baseline_round_trip() {
    let snap = sample();
    let text = render_baseline(&snap).unwrap();
    let back = parse_baseline(&text).unwrap();
    assert_eq!(back.records.len(), 2);
    assert_eq!(back.get("a.txt"), Some(FileMeta { size: u64::MAX, modified_at: 0 }));
    assert_eq!(back.get("b/c.txt"), Some(FileMeta { size: 5, modified_at: 1719990000123 }));
}

#[test]
fn empty_baseline_text() {
    assert_eq!(render_baseline(&Snapshot::new()), Some(String::new()));
    assert_eq!(parse_baseline("").unwrap().records.len(), 0);
}

#[test]
fn corrupt_baselines_are_refused() {
    assert_eq!(parse_baseline("a\t1\t2").err(), Some(BaselineError::Unterminated));
    assert_eq!(parse_baseline("a\t1\n").err(), Some(BaselineError::Malformed { line: 0 }));
    assert_eq!(parse_baseline("a\t1\t2\nb\tx\t2\n").err(), Some(BaselineError::Malformed { line: 1 }));
    assert_eq!(parse_baseline("\t1\t2\n").err(), Some(BaselineError::Malformed { line: 0 }));
    assert_eq!(parse_baseline("b\t1\t2\na\t1\t2\n").err(), Some(BaselineError::OutOfOrder { line: 1 }));
    assert_eq!(parse_baseline("a\t1\t2\na\t1\t2\n").err(), Some(BaselineError::OutOfOrder { line: 1 }));
}

#[test]
fn unstorable_path_is_not_rendered() {
    let mut s = Snapshot::new();
    s.insert(FileRecord { path: "a\tb".to_string(), size: 1, modified_at: 1 });
    assert_eq!(render_baseline(&s), None);
}

#[test]
fn manifest_lists_every_file() {
    let text = render_manifest(&sample());
    assert_eq!(text, "path,size,mtime\na.txt,18446744073709551615,0\nb/c.txt,5,1719990000123\n");
}

#[test]
fn fallback_keeps_every_change() {
    let changes = strings(&["a", "b"]);
    assert_eq!(upload_set(&changes, None), changes);
    assert_eq!(upload_set(&changes, Some(&strings(&["b"]))), strings(&["b"]));
}

#[test]
fn buffer_stays_within_capacity() {
    let mut buf = ByteBuffer::new(16);
    let data: Vec<u8> = (0..1000u32).map(|i| (i % 251) as u8).collect();
    let mut from = 0;
    let mut out = Vec::new();
    let mut peak = 0;
    while from < data.len() {
        let n = buf.write(&data, from).unwrap();
        from += n;
        peak = peak.max(buf.held());
        assert!(buf.held() <= buf.capacity());
        if let ReadOutcome::Data(chunk) = buf.read(7) {
            out.extend_from_slice(&chunk);
        }
    }
    buf.close_writer();
    loop {
        match buf.read(7) {
            ReadOutcome::Data(chunk) => out.extend_from_slice(&chunk),
            ReadOutcome::End => break,
            ReadOutcome::Empty => panic!("closed buffer reported empty"),
        }
    }
    assert_eq!(peak, 16);
    assert_eq!(out, data);
}

#[test]
fn full_buffer_takes_nothing() {
    let mut buf = ByteBuffer::new(4);
    assert_eq!(buf.write(&[1, 2, 3, 4, 5, 6], 0), Some(4));
    assert_eq!(buf.write(&[1, 2, 3, 4, 5, 6], 4), Some(0));
    assert!(matches!(buf.read(10), ReadOutcome::Data(ref d) if d == &vec![1, 2, 3, 4]));
    assert!(matches!(buf.read(10), ReadOutcome::Empty));
}

#[test]
fn cancel_stops_the_encoder() {
    let mut buf = ByteBuffer::new(8);
    let payload = vec![7u8; 32];
    assert_eq!(buf.write(&payload, 0), Some(8));
    // the transport takes half of what was sent, then fails
    assert!(matches!(buf.read(4), ReadOutcome::Data(_)));
    buf.cancel();
    assert_eq!(buf.write(&payload, 8), None);
    assert_eq!(buf.held(), 4);
    assert_eq!(encode_step(3, 10, buf.is_cancelled(), true), EncodeStep::Stop);
}

#[test]
fn encoder_steps() {
    assert_eq!(encode_step(0, 2, false, true), EncodeStep::Append { index: 0, report: true });
    assert_eq!(encode_step(1, 2, false, true), EncodeStep::Append { index: 1, report: false });
    assert_eq!(encode_step(100, 200, false, true), EncodeStep::Append { index: 100, report: true });
    assert_eq!(encode_step(1, 2, false, false), EncodeStep::Skip(1));
    assert_eq!(encode_step(2, 2, false, true), EncodeStep::Finish);
    assert_eq!(encode_step(0, 0, false, true), EncodeStep::Finish);
}
