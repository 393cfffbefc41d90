use trashd::config::Config;
use trashd::config::Conversion;
use trashd::config::Entries;
use trashd::config::GetOrDefault;
use trashd::config::parse_lines;
use trashd::lines::split_lines;
use trashd::num::parse_i32;
use trashd::num::parse_u64_digits;
use trashd::num::to_int_of;

fn b(s: &str) -> Vec<u8> {
    s.as_bytes().to_vec()
}

#[test]
fn split_lines_drops_empty_and_strips_cr() {
    let got = split_lines(&b("a\nbb\r\n\nc"));
    assert_eq!(got, vec![b("a"), b("bb"), b("c")]);
}

#[test]
fn split_lines_of_empty_input() {
    assert_eq!(split_lines(&b("")), Vec::<Vec<u8>>::new());
    assert_eq!(split_lines(&b("\n\r\n")), Vec::<Vec<u8>>::new());
}

#[test]
fn split_lines_keeps_unterminated_tail() {
    assert_eq!(split_lines(&b("one\ntwo")), vec![b("one"), b("two")]);
}

#[test]
fn parse_lines_reads_key_value_pairs() {
    let mut entries = Entries::new();
    parse_lines(&b("# comment\n\ndelete_after:5\nbadline\nother:x\n"), &mut entries);
    assert_eq!(entries.get(&b("delete_after")), Some(&b("5")));
    assert_eq!(entries.get(&b("other")), Some(&b("x")));
    assert_eq!(entries.get(&b("badline")), None);
    assert_eq!(entries.get(&b("# comment")), None);
}

#[test]
fn parse_lines_later_line_wins() {
    let mut entries = Entries::new();
    parse_lines(&b("delete_after:2\ndelete_after:3\n"), &mut entries);
    assert_eq!(entries.get(&b("delete_after")), Some(&b("3")));
}

#[test]
fn parse_lines_splits_at_first_colon() {
    let mut entries = Entries::new();
    parse_lines(&b("key:a:b\n"), &mut entries);
    assert_eq!(entries.get(&b("key")), Some(&b("a:b")));
}

#[test]
fn get_or_default_falls_back() {
    let mut entries = Entries::new();
    parse_lines(&b("other:x\n"), &mut entries);
    assert_eq!(entries.get_or_default(b("other"), b("1")), b("x"));
    assert_eq!(entries.get_or_default(b("delete_after"), b("1")), b("1"));
}

#[test]
fn to_int_reads_integers_and_defaults() {
    assert_eq!(b("5").to_int(), 5);
    assert_eq!(b("+7").to_int(), 7);
    assert_eq!(b("-1").to_int(), -1);
    assert_eq!(b("abc").to_int(), -1);
    assert_eq!(b(" 1").to_int(), -1);
    assert_eq!(b("").to_int(), -1);
    assert_eq!(b("99999999999999999999999999").to_int(), -1);
    assert_eq!(to_int_of(b("012").as_slice()), 12);
}

#[test]
fn parse_i32_is_range_checked() {
    assert_eq!(parse_i32(b("42").as_slice()), Some(42));
    assert_eq!(parse_i32(b("-2147483648").as_slice()), Some(i32::MIN));
    assert_eq!(parse_i32(b("2147483647").as_slice()), Some(i32::MAX));
    assert_eq!(parse_i32(b("2147483648").as_slice()), None);
    assert_eq!(parse_i32(b("4x").as_slice()), None);
    assert_eq!(parse_i32(b("").as_slice()), None);
}

#[test]
fn parse_u64_digits_takes_plain_digits_only() {
    assert_eq!(parse_u64_digits(b("123").as_slice()), Some(123));
    assert_eq!(parse_u64_digits(b("18446744073709551615").as_slice()), Some(u64::MAX));
    assert_eq!(parse_u64_digits(b("18446744073709551616").as_slice()), None);
    assert_eq!(parse_u64_digits(b("+1").as_slice()), None);
    assert_eq!(parse_u64_digits(b("-1").as_slice()), None);
    assert_eq!(parse_u64_digits(b("").as_slice()), None);
}

#[test]
fn config_reads_delete_after() {
    let config = Config::from_contents(&b("delete_after:5\n"));
    assert_eq!(config.delete_after, 5);
}

#[test]
fn config_defaults_where_key_is_absent() {
    let config = Config::from_contents(&b("# nothing here\n"));
    assert_eq!(config.delete_after, 1);
}

#[test]
fn config_marks_unparsable_values() {
    let config = Config::from_contents(&b("delete_after:soon\n"));
    assert_eq!(config.delete_after, -1);
    assert_eq!(config.effective_delete_after(), 1);
}

#[test]
fn effective_retention_keeps_real_values() {
    let config = Config::from_contents(&b("delete_after:30\n"));
    assert_eq!(config.effective_delete_after(), 30);
    let zero = Config::from_contents(&b("delete_after:0\n"));
    assert_eq!(zero.effective_delete_after(), 0);
}

#[test]
fn default_config_string_round_trips() {
    let text = Config::get_default_config_string();
    assert_eq!(text, "delete_after:1");
    let config = Config::from_contents(&text.into_bytes());
    assert_eq!(config.delete_after, 1);
}
