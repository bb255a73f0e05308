use voxel_save::entry::{decode_entries, find_byte, Entry, EntryDecoder, Value};

fn text(key: &str, value: &str) -> Entry {
    Entry { key: key.to_string(), value: Value::Text(value.to_string()) }
}

fn binary(key: &str, value: &[u8]) -> Entry {
    Entry { key: key.to_string(), value: Value::Binary(value.to_vec()) }
}

fn list(key: &str, parts: &[&[u8]]) -> Entry {
    Entry {
        key: key.to_string(),
        value: Value::BinaryList(parts.iter().map(|p| p.to_vec()).collect()),
    }
}

#[test]
fn text_and_binary_lines() {
    let got = decode_entries(b"name=world\nblob:\x00\x01\x02\n");
    assert_eq!(got, vec![text("name", "world"), binary("blob", &[0, 1, 2])]);
}

#[test]
fn continuation_promotes_binary_to_list() {
    let got = decode_entries(b"k:ab\n+:cd\n");
    assert_eq!(got, vec![list("k", &[b"ab", b"cd"])]);
}

#[test]
fn continuations_append_in_file_order() {
    let got = decode_entries(b"k:p0\n+:p1\n+:p2\n+:p3");
    assert_eq!(got, vec![list("k", &[b"p0", b"p1", b"p2", b"p3"])]);
}

#[test]
fn lone_binary_stays_binary() {
    assert_eq!(decode_entries(b"k:ab"), vec![binary("k", b"ab")]);
}

#[test]
fn continuation_without_a_key_is_ignored() {
    assert_eq!(decode_entries(b"+:lost\n"), Vec::new());
}

#[test]
fn continuation_after_text_is_ignored() {
    let got = decode_entries(b"t=v\n+:lost\n");
    assert_eq!(got, vec![text("t", "v")]);
}

#[test]
fn continuation_follows_the_last_key_only() {
    let got = decode_entries(b"a:1\nb:2\n+:3\n");
    assert_eq!(got, vec![binary("a", b"1"), list("b", &[b"2", b"3"])]);
}

#[test]
fn continuation_marker_wins_over_assignment() {
    let got = decode_entries(b"k:x\n+:a=b:c\n");
    assert_eq!(got, vec![list("k", &[b"x", b"a=b:c"])]);
}

#[test]
fn equals_sign_wins_over_colon() {
    let got = decode_entries(b"a:b=c\n");
    assert_eq!(got, vec![text("a:b", "c")]);
    let got = decode_entries(b"a=b:c\n");
    assert_eq!(got, vec![text("a", "b:c")]);
}

#[test]
fn first_mark_splits_the_line() {
    let got = decode_entries(b"a=b=c\nd:e:f\n");
    assert_eq!(got, vec![text("a", "b=c"), binary("d", b"e:f")]);
}

#[test]
fn unrecognized_and_empty_lines_are_dropped() {
    let got = decode_entries(b"\n\njunk\n+\nk=v\n\n");
    assert_eq!(got, vec![text("k", "v")]);
}

#[test]
fn later_assignment_replaces_the_value_in_place() {
    let got = decode_entries(b"a=1\nb=2\na:xyz\n+:w\n");
    assert_eq!(got, vec![list("a", &[b"xyz", b"w"]), text("b", "2")]);
}

#[test]
fn empty_key_and_empty_value_are_kept() {
    let got = decode_entries(b"=v\nk=\n:\n");
    assert_eq!(got, vec![binary("", b""), text("k", "")]);
}

#[test]
fn invalid_utf8_in_text_is_replaced() {
    let got = decode_entries(b"k\xFF=v\xC0\n");
    assert_eq!(got, vec![text("k\u{FFFD}", "v\u{FFFD}")]);
}

#[test]
fn keys_that_decode_alike_are_one_key() {
    let got = decode_entries(b"\xFF:a\n\xFE:b\n");
    assert_eq!(got, vec![binary("\u{FFFD}", b"b")]);
}

#[test]
fn find_byte_gives_first_position_or_length() {
    assert_eq!(find_byte(b"a=b=c", b'='), 1);
    assert_eq!(find_byte(b"abc", b'='), 3);
    assert_eq!(find_byte(b"", b'='), 0);
}

#[test]
fn decoder_takes_lines_one_at_a_time() {
    let mut d = EntryDecoder::new();
    d.process_line(b"k:one");
    d.process_line(b"");
    d.process_line(b"+:two");
    d.store("t".to_string(), Value::Text("x".to_string()));
    d.extend(b"lost".to_vec());
    assert_eq!(d.into_entries(), vec![list("k", &[b"one", b"two"]), text("t", "x")]);
}
