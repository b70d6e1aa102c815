use miru_dt::render::render_value;

#[test]
fn empty_is_boolean() {
    assert_eq!(render_value(&[]), "");
}

#[test]
fn string_list() {
    assert_eq!(render_value(b"okay\0"), "\"okay\"");
    assert_eq!(
        render_value(b"ns16550a\0snps,dw-apb-uart\0"),
        "\"ns16550a\", \"snps,dw-apb-uart\""
    );
}

#[test]
fn cells() {
    assert_eq!(
        render_value(&[0, 0, 0, 1, 0, 0, 0x10, 0]),
        "<0x00000001 0x00001000>"
    );
}

#[test]
fn odd_bytes() {
    assert_eq!(render_value(&[0xde, 0xad, 0xbe]), "[de ad be]");
}

#[test]
fn four_byte_string_is_still_string() {
    // "ok\0" is 3 bytes -> string; "abc\0" is 4 bytes and printable -> string wins over cells
    assert_eq!(render_value(b"abc\0"), "\"abc\"");
}

#[test]
fn quotes_and_backslashes_are_escaped() {
    assert_eq!(render_value(b"a\"b\\c'\0"), "\"a\\\"b\\\\c\\'\"");
}

#[test]
fn empty_string_segment_falls_back_to_bytes() {
    // a lone NUL and a doubled NUL are not string lists
    assert_eq!(render_value(&[0]), "[00]");
    assert_eq!(render_value(b"ab\0\0"), "<0x61620000>");
}

#[test]
fn non_printable_falls_back_to_cells() {
    assert_eq!(render_value(&[0x01, 0x02, 0x03, 0x00]), "<0x01020300>");
}

#[test]
fn long_cell_list_is_truncated() {
    let bytes = vec![0u8; 4 * 257];
    let r = render_value(&bytes);
    assert!(r.starts_with("<0x00000000 0x00000000"));
    assert!(r.ends_with("> /* truncated: 257 cells total */"));
    assert_eq!(r.matches("0x").count(), 256);
}

#[test]
fn long_byte_list_is_truncated() {
    let bytes = vec![0xabu8; 513];
    let r = render_value(&bytes);
    assert!(r.starts_with("[ab ab"));
    assert!(r.ends_with("ab] /* truncated: 513 bytes total */"));
    assert_eq!(r.matches("ab").count(), 512);
}
