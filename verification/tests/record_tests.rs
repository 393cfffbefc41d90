use trashd::expiry::is_expired;
use trashd::expiry::retention_millis;
use trashd::expiry::select_expired;
use trashd::record::TrashEntry;
use trashd::record::format_record;
use trashd::record::parse_record;

fn b(s: &str) -> Vec<u8> {
    s.as_bytes().to_vec()
}

#[test]
fn record_bytes_are_two_labelled_lines() {
    let rec = format_record(1234567890123, &b("/tmp/foo.txt"));
    assert_eq!(rec, b("added:1234567890123\noriginal_path:/tmp/foo.txt\n"));
}

#[test]
fn record_round_trips() {
    let rec = format_record(1234567890123, &b("/tmp/foo.txt"));
    let (added_at, path) = parse_record(&rec).unwrap();
    assert_eq!(added_at, 1234567890123);
    assert_eq!(path, b("/tmp/foo.txt"));
}

#[test]
fn record_round_trips_odd_path() {
    // a path holding a colon and a blank survives byte for byte
    let rec = format_record(0, &b("/tmp/a dir/x:y.txt"));
    let (added_at, path) = parse_record(&rec).unwrap();
    assert_eq!(added_at, 0);
    assert_eq!(path, b("/tmp/a dir/x:y.txt"));
}

#[test]
fn malformed_records_are_rejected() {
    assert_eq!(parse_record(&b("")), None);
    assert_eq!(parse_record(&b("added:1\n")), None);
    assert_eq!(parse_record(&b("added:1\noriginal_path:/x")), None);
    assert_eq!(parse_record(&b("added:1\noriginal_path:/x\nmore\n")), None);
    assert_eq!(parse_record(&b("adder:1\noriginal_path:/x\n")), None);
    assert_eq!(parse_record(&b("added:1x\noriginal_path:/x\n")), None);
    assert_eq!(parse_record(&b("added:+1\noriginal_path:/x\n")), None);
    assert_eq!(parse_record(&b("added:1\nknown_path:/x\n")), None);
}

#[test]
fn expiry_is_strict_on_the_boundary() {
    let now: u64 = 1_000_000;
    let threshold: u64 = 1000;
    assert!(is_expired(now, now - threshold - 1, threshold));
    assert!(!is_expired(now, now - threshold + 1, threshold));
    assert!(!is_expired(now, now - threshold, threshold));
    // a timestamp from the future is never expired
    assert!(!is_expired(now, now + 5, threshold));
}

#[test]
fn sweep_selects_exactly_the_expired() {
    let now: u64 = 1_000_000;
    let threshold: u64 = 1000;
    let entries = vec![
        TrashEntry { stored_name: b("old.txt"), original_path: b("/tmp/old.txt"), added_at: now - threshold - 1 },
        TrashEntry { stored_name: b("new.txt"), original_path: b("/tmp/new.txt"), added_at: now - threshold + 1 },
        TrashEntry { stored_name: b("older.txt"), original_path: b("/tmp/older.txt"), added_at: 0 },
    ];
    let picked = select_expired(&entries, now, threshold);
    assert_eq!(picked, vec![0, 2]);
}

#[test]
fn retention_is_counted_in_days() {
    assert_eq!(retention_millis(0), 0);
    assert_eq!(retention_millis(1), 86_400_000);
    assert_eq!(retention_millis(30), 2_592_000_000);
    assert_eq!(retention_millis(u64::MAX), u64::MAX);
}
