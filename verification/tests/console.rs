use reality_os::console::{decimal_digits, signed_decimal, VgaWriter};

#[test]
fn decimal_digits_of_zero_and_examples() {
    assert_eq!(decimal_digits(0), b"0".to_vec());
    assert_eq!(decimal_digits(7), b"7".to_vec());
    assert_eq!(decimal_digits(530), b"530".to_vec());
    assert_eq!(decimal_digits(1060), b"1060".to_vec());
    assert_eq!(decimal_digits(u64::MAX), b"18446744073709551615".to_vec());
}

#[test]
fn signed_decimal_examples() {
    assert_eq!(signed_decimal(0), b"0".to_vec());
    assert_eq!(signed_decimal(42), b"42".to_vec());
    assert_eq!(signed_decimal(-7), b"-7".to_vec());
    assert_eq!(signed_decimal(i32::MAX), b"2147483647".to_vec());
    assert_eq!(signed_decimal(-i32::MAX), b"-2147483647".to_vec());
}

#[test]
fn vga_writes_cells_left_to_right() {
    let mut w = VgaWriter::new();
    let ws = w.write_str(b"AB");
    assert_eq!(ws, vec![(0usize, 0x0F41u16), (1, 0x0F42)]);
}

#[test]
fn vga_newline_moves_to_next_row() {
    let mut w = VgaWriter::new();
    let ws = w.write_str(b"A\nB");
    assert_eq!(ws, vec![(0usize, 0x0F41u16), (80, 0x0F42)]);
}

#[test]
fn vga_full_row_wraps_before_next_byte() {
    let mut w = VgaWriter::new();
    let line = [b'x'; 80];
    let ws = w.write_str(&line);
    assert_eq!(ws.len(), 80);
    assert_eq!(ws[79].0, 79);
    assert_eq!(w.write_byte(b'y'), Some((80, 0x0F79)));
}

#[test]
fn vga_bottom_row_wraps_to_top() {
    let mut w = VgaWriter::new();
    let newlines = [b'\n'; 24];
    assert!(w.write_str(&newlines).is_empty());
    assert_eq!(w.write_byte(b'z'), Some((24 * 80, 0x0F7A)));
    assert_eq!(w.write_byte(b'\n'), None);
    assert_eq!(w.write_byte(b'q'), Some((0, 0x0F71)));
    w.home();
    assert_eq!(w.write_byte(b'h'), Some((0, 0x0F68)));
}
