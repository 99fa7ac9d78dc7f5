use brot::lang::render::{format_for_ttv, vec_to_string};

#[test]
fn format_printable_bytes_as_themselves() {
    assert_eq!("A", format_for_ttv(65));
    assert_eq!(" ", format_for_ttv(32));
    assert_eq!("~", format_for_ttv(126));
    assert_eq!("0", format_for_ttv(48));
    assert_eq!("[", format_for_ttv(91));
}

#[test]
fn format_control_bytes_escaped() {
    assert_eq!("\\n", format_for_ttv(10));
    assert_eq!("\\t", format_for_ttv(9));
    assert_eq!("\\r", format_for_ttv(13));
    assert_eq!("\\'", format_for_ttv(39));
    assert_eq!("\\\"", format_for_ttv(34));
    assert_eq!("\\\\", format_for_ttv(92));
}

#[test]
fn format_other_bytes_in_hex() {
    assert_eq!("\\x00", format_for_ttv(0));
    assert_eq!("\\x03", format_for_ttv(3));
    assert_eq!("\\x1f", format_for_ttv(31));
    assert_eq!("\\x7f", format_for_ttv(127));
    assert_eq!("\\x80", format_for_ttv(128));
    assert_eq!("\\x9d", format_for_ttv(157));
    assert_eq!("\\xff", format_for_ttv(255));
}

#[test]
fn format_values_beyond_a_byte_in_decimal() {
    assert_eq!("256", format_for_ttv(256));
    assert_eq!("-1", format_for_ttv(-1));
    assert_eq!("-128", format_for_ttv(-128));
    assert_eq!("1000", format_for_ttv(1000));
    assert_eq!("2147483647", format_for_ttv(i32::MAX));
    assert_eq!("-2147483648", format_for_ttv(i32::MIN));
}

#[test]
fn format_every_byte_as_the_standard_escape() {
    for b in 0..=255u8 {
        let expected = format!("{}", std::ascii::escape_default(b));
        assert_eq!(expected, format_for_ttv(b as i32));
    }
}

#[test]
fn format_decimal_as_the_standard_numeral() {
    let samples = [
        -2147483648i32,
        -2147483647,
        -1000000,
        -99999,
        -256,
        -10,
        -9,
        -1,
        256,
        257,
        999,
        1000,
        1001,
        65535,
        1234567890,
        2147483647,
    ];
    for v in samples {
        assert_eq!(format!("{}", v), format_for_ttv(v));
    }
}

#[test]
fn tape_of_nothing_as_text() {
    assert_eq!("[]", vec_to_string(vec![]));
}

#[test]
fn tape_of_one_cell_as_text() {
    assert_eq!("[0]", vec_to_string(vec![0]));
    assert_eq!("[-7]", vec_to_string(vec![-7]));
}

#[test]
fn tape_of_many_cells_as_text() {
    assert_eq!("[1, -2, 300]", vec_to_string(vec![1, -2, 300]));
    assert_eq!(
        "[0, 10, 65, 255, 256, -2147483648, 2147483647]",
        vec_to_string(vec![0, 10, 65, 255, 256, i32::MIN, i32::MAX])
    );
}
