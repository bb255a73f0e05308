use voxel_save::error::DecodeError;
use voxel_save::section::{parse_section, Section};

fn section(name: &str, data: &[u8]) -> Section {
    Section { name: name.to_string(), data: data.to_vec() }
}

fn rejoin(sections: &[Section]) -> Vec<u8> {
    let mut out = Vec::new();
    for s in sections {
        if !s.name.is_empty() {
            out.push(b'[');
            out.extend_from_slice(s.name.as_bytes());
            out.push(b']');
        }
        out.extend_from_slice(&s.data);
    }
    out
}

#[test]
fn splits_named_sections() {
    let got = parse_section(b"[head]a=1\n[chunk]\x01\x02").unwrap();
    assert_eq!(got, vec![section("head", b"a=1\n"), section("chunk", b"\x01\x02")]);
}

#[test]
fn last_section_is_emitted_at_end_of_input() {
    let got = parse_section(b"[only]").unwrap();
    assert_eq!(got, vec![section("only", b"")]);
}

#[test]
fn empty_input_has_no_sections() {
    assert_eq!(parse_section(b"").unwrap(), Vec::new());
}

#[test]
fn bytes_before_the_first_header_form_an_unnamed_section() {
    let got = parse_section(b"lead[a]x").unwrap();
    assert_eq!(got, vec![section("", b"lead"), section("a", b"x")]);
}

#[test]
fn empty_name_with_empty_body_is_dropped() {
    assert_eq!(parse_section(b"[]").unwrap(), Vec::new());
    let got = parse_section(b"[a]x[][b]y").unwrap();
    assert_eq!(got, vec![section("a", b"x"), section("b", b"y")]);
    let got = parse_section(b"[]body").unwrap();
    assert_eq!(got, vec![section("", b"body")]);
}

#[test]
fn closing_bracket_in_a_body_is_data() {
    let got = parse_section(b"[a]x]y[b[c]z").unwrap();
    assert_eq!(got, vec![section("a", b"x]y"), section("b[c", b"z")]);
}

#[test]
fn unterminated_header_is_an_error() {
    assert_eq!(parse_section(b"[a]x[oops"), Err(DecodeError::UnterminatedHeader));
    assert_eq!(parse_section(b"["), Err(DecodeError::UnterminatedHeader));
}

#[test]
fn invalid_utf8_in_a_name_is_replaced() {
    let got = parse_section(b"[a\xFFb]x").unwrap();
    assert_eq!(got, vec![section("a\u{FFFD}b", b"x")]);
}

#[test]
fn multibyte_name_is_decoded() {
    let got = parse_section("[h\u{00E9}]x".as_bytes()).unwrap();
    assert_eq!(got, vec![section("h\u{00E9}", b"x")]);
}

#[test]
fn split_then_rejoin_gives_the_input_back() {
    let input: &[u8] = b"lead\n[head]a=1\nb:\x00\x01\n+:\x02\n[chunk]\x07binary]\x00[tail]";
    let got = parse_section(input).unwrap();
    assert_eq!(got.len(), 4);
    assert_eq!(rejoin(&got), input.to_vec());
}
