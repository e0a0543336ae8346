use reality_os::fsotb::{decode_program, parse_header, run_hello_fsotb, FsotbHeader};
use reality_os::isa::{Instr, Op};

const SEEDS: u64 = 0x0123_4567_89ab_cdef;
const PANEL_BITS: u64 = 0x3fb9_6b7f_0000_0001;

fn put_u32(b: &mut [u8], off: usize, v: u32) {
    b[off..off + 4].copy_from_slice(&v.to_le_bytes());
}

/// A 264-byte blob laid out like `hello.fsotb`: header, then the code section at 56.
fn hello_blob() -> Vec<u8> {
    let mut b = vec![0u8; 264];
    b[0..5].copy_from_slice(b"FSOTB");
    b[5] = 1;
    b[6..8].copy_from_slice(&0x0100u16.to_le_bytes());
    b[8..16].copy_from_slice(&SEEDS.to_le_bytes());
    put_u32(&mut b, 28, 56);
    put_u32(&mut b, 32, 12);
    put_u32(&mut b, 36, 2);
    put_u32(&mut b, 44, 68);
    put_u32(&mut b, 52, 1);
    let bias = 0x79u8;
    b[56..62].copy_from_slice(&[12 + bias, bias, bias, bias, 42 + bias, 0x04]);
    b[62..68].copy_from_slice(&[bias, bias, bias, bias, bias, 0x04]);
    b
}

#[test]
fn header_fields_are_little_endian() {
    let b = hello_blob();
    let h = parse_header(&b).unwrap();
    assert_eq!(h.version, 0x0100);
    assert_eq!(h.seeds_hash, SEEDS);
    assert_eq!(h.code_off, 56);
    assert_eq!(h.code_bytes, 12);
    assert_eq!(h.n_instructions, 2);
    assert_eq!(h.panel_off, 68);
    assert_eq!(h.panel_count, 1);
}

#[test]
fn header_rejects_short_or_wrong_magic() {
    let b = hello_blob();
    assert!(parse_header(&b[..55]).is_none());
    let mut bad = b.clone();
    bad[0] = b'X';
    assert!(parse_header(&bad).is_none());
    let mut bad_fmt = b.clone();
    bad_fmt[5] = 2;
    assert!(parse_header(&bad_fmt).is_none());
}

#[test]
fn decode_removes_the_bias() {
    let b = hello_blob();
    let h = parse_header(&b).unwrap();
    let mut out = [Instr { op: 9, a: 9, b: 9, c: 9, imm: 9 }; 4];
    assert_eq!(decode_program(&b, &h, &mut out), Some(2));
    assert_eq!(out[0].op, Op::EvalPanel.code());
    assert_eq!(out[0].a, 0);
    assert_eq!(out[0].imm, 42);
    assert_eq!(out[1].op, Op::Halt.code());
    assert_eq!(out[2].op, 9);
}

#[test]
fn decode_wraps_fields_below_the_bias() {
    let mut b = hello_blob();
    b[56] = 0x00; // 0x00 - 0x79 wraps to 0x87
    b[60] = 0x78; // 0x78 - 0x79 wraps to 0xff, read as 255
    let h = parse_header(&b).unwrap();
    let mut out = [Instr { op: 0, a: 0, b: 0, c: 0, imm: 0 }; 2];
    assert_eq!(decode_program(&b, &h, &mut out), Some(2));
    assert_eq!(out[0].op, 0x87);
    assert_eq!(out[0].imm, 255);
}

#[test]
fn decode_refuses_bad_sizes() {
    let b = hello_blob();
    let h = parse_header(&b).unwrap();
    let mut small = [Instr { op: 5, a: 0, b: 0, c: 0, imm: 0 }; 1];
    assert_eq!(decode_program(&b, &h, &mut small), None);
    assert_eq!(small[0].op, 5);
    let empty = FsotbHeader { n_instructions: 0, ..h };
    let mut out = [Instr { op: 0, a: 0, b: 0, c: 0, imm: 0 }; 8];
    assert_eq!(decode_program(&b, &empty, &mut out), None);
    let past_end = FsotbHeader { code_off: 260, ..h };
    assert_eq!(decode_program(&b, &past_end, &mut out), None);
    let huge = FsotbHeader { code_off: u32::MAX, ..h };
    assert_eq!(decode_program(&b, &huge, &mut out), None);
}

#[test]
fn hello_loads_and_runs() {
    let b = hello_blob();
    let r = run_hello_fsotb(&b, SEEDS, PANEL_BITS);
    assert!(r.magic_ok && r.seeds_ok && r.decode_ok && r.run_ok && r.overall_ok);
    assert_eq!(r.version, 0x0100);
    assert_eq!(r.n_instructions, 2);
    assert_eq!(r.panel_count, 1);
    assert_eq!(r.emit_tag, 42);
    assert_eq!(r.steps, 2);
    assert_eq!(r.panel_s_bits, PANEL_BITS);
    assert_eq!(r.file_len, 264);
}

#[test]
fn hello_with_wrong_seeds_does_not_run() {
    let b = hello_blob();
    let r = run_hello_fsotb(&b, SEEDS ^ 1, PANEL_BITS);
    assert!(r.magic_ok && r.decode_ok);
    assert!(!r.seeds_ok && !r.run_ok && !r.overall_ok);
    assert_eq!(r.emit_tag, 0);
    assert_eq!(r.panel_s_bits, 0);
}

#[test]
fn hello_without_magic_reports_nothing_but_length() {
    let mut b = hello_blob();
    b[1] = 0;
    let r = run_hello_fsotb(&b, SEEDS, PANEL_BITS);
    assert!(!r.magic_ok && !r.seeds_ok && !r.decode_ok && !r.overall_ok);
    assert_eq!(r.version, 0);
    assert_eq!(r.file_len, 264);
}

#[test]
fn hello_of_other_length_or_program_does_not_run() {
    let mut longer = hello_blob();
    longer.push(0);
    let r = run_hello_fsotb(&longer, SEEDS, PANEL_BITS);
    assert!(r.decode_ok && r.seeds_ok && !r.run_ok && !r.overall_ok);
    assert_eq!(r.file_len, 265);

    let mut other = hello_blob();
    other[60] = 0x79 + 41; // tag 41
    let r = run_hello_fsotb(&other, SEEDS, PANEL_BITS);
    assert!(!r.decode_ok && !r.run_ok);

    let mut truncated = hello_blob();
    put_u32(&mut truncated, 28, 259);
    let r = run_hello_fsotb(&truncated, SEEDS, PANEL_BITS);
    assert!(r.magic_ok && !r.decode_ok && !r.overall_ok);
}
