//! Loader for the FSOTB wire format (the layout of the monorepo `hello.fsotb`).
//!
//! A file starts with a 56-byte header: the magic `FSOTB`, format byte 1, a
//! little-endian version, the seeds hash, and the offsets and sizes of the code
//! and panel sections. Each instruction takes 6 bytes; bytes 0..5 hold the
//! fields plus a bias of `0x79`, byte 5 is padding.

use vstd::prelude::*;
use crate::isa::{Instr, Op, op_code};

verus! {

/// Bias added to every encoded instruction field.
pub const BIAS: u8 = 0x79;
/// Size of the fixed header.
pub const HEADER_LEN: usize = 56;
/// Bytes per encoded instruction.
pub const INSTR_BYTES: usize = 6;

/// Header fields of an FSOTB file.
#[derive(Clone, Copy, Debug)]
pub struct FsotbHeader {
    pub version: u16,
    pub seeds_hash: u64,
    pub code_off: u32,
    pub code_bytes: u32,
    pub n_instructions: u32,
    pub panel_off: u32,
    pub panel_count: u32,
}

/// Outcome of loading and checking the `hello.fsotb` program.
#[derive(Clone, Copy, Debug)]
pub struct FsotbLoadReport {
    pub magic_ok: bool,
    pub version: u16,
    pub seeds_ok: bool,
    pub n_instructions: u32,
    pub panel_count: u32,
    pub decode_ok: bool,
    pub run_ok: bool,
    pub emit_tag: i32,
    pub steps: u32,
    pub panel_s_bits: u64,
    pub file_len: u32,
    pub overall_ok: bool,
}

/// Little-endian 16-bit value at `off`.
pub open spec fn le16(b: Seq<u8>, off: int) -> int {
    b[off] + 256 * b[off + 1]
}

/// Little-endian 32-bit value at `off`.
pub open spec fn le32(b: Seq<u8>, off: int) -> int {
    le16(b, off) + 65536 * le16(b, off + 2)
}

/// Little-endian 64-bit value at `off`.
pub open spec fn le64(b: Seq<u8>, off: int) -> int {
    le32(b, off) + 4294967296 * le32(b, off + 4)
}

/// `b` is long enough for a header and starts with `FSOTB` followed by format byte 1.
pub open spec fn has_fsotb_magic(b: Seq<u8>) -> bool {
    &&& b.len() >= HEADER_LEN
    &&& b[0] == 0x46u8 && b[1] == 0x53u8 && b[2] == 0x4fu8 && b[3] == 0x54u8 && b[4] == 0x42u8
    &&& b[5] == 1u8
}

/// The header that `b` encodes (meaningful when `has_fsotb_magic(b)`).
pub open spec fn header_of(b: Seq<u8>) -> FsotbHeader {
    FsotbHeader {
        version: le16(b, 6) as u16,
        seeds_hash: le64(b, 8) as u64,
        code_off: le32(b, 28) as u32,
        code_bytes: le32(b, 32) as u32,
        n_instructions: le32(b, 36) as u32,
        panel_off: le32(b, 44) as u32,
        panel_count: le32(b, 52) as u32,
    }
}

/// Where the header fields lie: each is read little-endian (lowest byte
/// first) from its place, the version from bytes 6..8, the seeds hash from
/// 8..16, the code offset, code size and instruction count from 28..32, 32..36
/// and 36..40, the panel offset from 44..48 and the panel count from 52..56.
pub proof fn lemma_header_layout(b: Seq<u8>)
    requires
        b.len() >= HEADER_LEN,
    ensures
        ({
            let h = header_of(b);
            &&& h.version == b[6] + 0x100 * b[7]
            &&& h.seeds_hash == b[8] + 0x100 * b[9] + 0x1_0000 * b[10] + 0x100_0000 * b[11]
                + 0x1_0000_0000 * b[12] + 0x100_0000_0000 * b[13] + 0x1_0000_0000_0000 * b[14]
                + 0x100_0000_0000_0000 * b[15]
            &&& h.code_off == b[28] + 0x100 * b[29] + 0x1_0000 * b[30] + 0x100_0000 * b[31]
            &&& h.code_bytes == b[32] + 0x100 * b[33] + 0x1_0000 * b[34] + 0x100_0000 * b[35]
            &&& h.n_instructions == b[36] + 0x100 * b[37] + 0x1_0000 * b[38] + 0x100_0000 * b[39]
            &&& h.panel_off == b[44] + 0x100 * b[45] + 0x1_0000 * b[46] + 0x100_0000 * b[47]
            &&& h.panel_count == b[52] + 0x100 * b[53] + 0x1_0000 * b[54] + 0x100_0000 * b[55]
        }),
{
}

/// The instruction that the six bytes at `off` encode.
pub open spec fn instr_at(b: Seq<u8>, off: int) -> Instr {
    Instr {
        op: vstd::wrapping::u8_specs::wrapping_sub(b[off], BIAS),
        a: vstd::wrapping::u8_specs::wrapping_sub(b[off + 1], BIAS),
        b: vstd::wrapping::u8_specs::wrapping_sub(b[off + 2], BIAS),
        c: vstd::wrapping::u8_specs::wrapping_sub(b[off + 3], BIAS),
        imm: vstd::wrapping::u8_specs::wrapping_sub(b[off + 4], BIAS) as i32,
    }
}

/// Decoding inverts the encoding: an instruction whose five fields are written,
/// each plus the bias and wrapped to a byte, as bytes 0..5 of a record is
/// decoded field for field (`a` from byte 1, `b` from byte 2, `c` from byte 3,
/// the immediate from byte 4), for every immediate that fits in a byte.
pub proof fn lemma_decode_inverts_encode(bytes: Seq<u8>, off: int, ins: Instr)
    requires
        0 <= off,
        off + 6 <= bytes.len(),
        0 <= ins.imm <= 255,
        bytes[off] == (ins.op + 0x79) % 256,
        bytes[off + 1] == (ins.a + 0x79) % 256,
        bytes[off + 2] == (ins.b + 0x79) % 256,
        bytes[off + 3] == (ins.c + 0x79) % 256,
        bytes[off + 4] == (ins.imm + 0x79) % 256,
    ensures
        instr_at(bytes, off) == ins,
{
}

/// Encoding inverts decoding: every record is the encoding of what it decodes
/// to, each of bytes 0..5 being the decoded field plus the bias, wrapped to a
/// byte, and the decoded immediate lying in 0..=255.
pub proof fn lemma_encode_inverts_decode(bytes: Seq<u8>, off: int)
    requires
        0 <= off,
        off + 6 <= bytes.len(),
    ensures
        ({
            let ins = instr_at(bytes, off);
            &&& 0 <= ins.imm <= 255
            &&& bytes[off] == (ins.op + 0x79) % 256
            &&& bytes[off + 1] == (ins.a + 0x79) % 256
            &&& bytes[off + 2] == (ins.b + 0x79) % 256
            &&& bytes[off + 3] == (ins.c + 0x79) % 256
            &&& bytes[off + 4] == (ins.imm + 0x79) % 256
        }),
{
}

/// The code section of `hdr` holds a program that fits in `cap` instructions and lies within `b`.
pub open spec fn code_fits(b: Seq<u8>, hdr: FsotbHeader, cap: nat) -> bool {
    &&& hdr.n_instructions > 0
    &&& hdr.n_instructions <= cap
    &&& hdr.code_off + 6 * hdr.n_instructions <= b.len()
}

fn read_u16(b: &[u8], off: usize) -> (r: Option<u16>)
    requires
        off + 2 <= usize::MAX,
    ensures
        r.is_some() == (off + 2 <= b@.len()),
        r.is_some() ==> r.unwrap() == le16(b@, off as int),
{
    if off + 2 > b.len() {
        return None;
    }
    Some(b[off] as u16 + (b[off + 1] as u16) * 256)
}

fn read_u32(b: &[u8], off: usize) -> (r: Option<u32>)
    requires
        off + 4 <= usize::MAX,
    ensures
        r.is_some() == (off + 4 <= b@.len()),
        r.is_some() ==> r.unwrap() == le32(b@, off as int),
{
    if off + 4 > b.len() {
        return None;
    }
    Some(b[off] as u32 + (b[off + 1] as u32) * 256 + (b[off + 2] as u32) * 65536 + (b[off + 3] as u32)
        * 16777216)
}

fn read_u64(b: &[u8], off: usize) -> (r: Option<u64>)
    requires
        off + 8 <= usize::MAX,
    ensures
        r.is_some() == (off + 8 <= b@.len()),
        r.is_some() ==> r.unwrap() == le64(b@, off as int),
{
    if off + 8 > b.len() {
        return None;
    }
    let lo: u64 = b[off] as u64 + (b[off + 1] as u64) * 256 + (b[off + 2] as u64) * 65536 + (b[off
        + 3] as u64) * 16777216;
    let hi: u64 = b[off + 4] as u64 + (b[off + 5] as u64) * 256 + (b[off + 6] as u64) * 65536 + (b[off
        + 7] as u64) * 16777216;
    Some(lo + hi * 4294967296)
}

/// Parses the header of an FSOTB file; `None` unless `b` has the magic and a full header.
pub fn parse_header(b: &[u8]) -> (r: Option<FsotbHeader>)
    ensures
        r.is_some() == has_fsotb_magic(b@),
        r.is_some() ==> r.unwrap() == header_of(b@),
{
    if b.len() < HEADER_LEN {
        return None;
    }
    if !(b[0] == 0x46 && b[1] == 0x53 && b[2] == 0x4f && b[3] == 0x54 && b[4] == 0x42) || b[5] != 1 {
        return None;
    }
    let version = match read_u16(b, 6) {
        Some(v) => v,
        None => return None,
    };
    let seeds_hash = match read_u64(b, 8) {
        Some(v) => v,
        None => return None,
    };
    let code_off = match read_u32(b, 28) {
        Some(v) => v,
        None => return None,
    };
    let code_bytes = match read_u32(b, 32) {
        Some(v) => v,
        None => return None,
    };
    let n_instructions = match read_u32(b, 36) {
        Some(v) => v,
        None => return None,
    };
    let panel_off = match read_u32(b, 44) {
        Some(v) => v,
        None => return None,
    };
    let panel_count = match read_u32(b, 52) {
        Some(v) => v,
        None => return None,
    };
    Some(FsotbHeader { version, seeds_hash, code_off, code_bytes, n_instructions, panel_off, panel_count })
}

fn decode_instr(raw: &[u8; 6]) -> (ins: Instr)
    ensures
        ins == instr_at(raw@, 0),
{
    Instr {
        op: raw[0].wrapping_sub(BIAS),
        a: raw[1].wrapping_sub(BIAS),
        b: raw[2].wrapping_sub(BIAS),
        c: raw[3].wrapping_sub(BIAS),
        imm: raw[4].wrapping_sub(BIAS) as i32,
    }
}

/// Decodes the code section described by `hdr` into the front of `out`.
/// Returns the instruction count, or `None` (leaving `out` alone) when the
/// program is empty, does not fit in `out`, or runs past the end of `b`.
pub fn decode_program(b: &[u8], hdr: &FsotbHeader, out: &mut [Instr]) -> (r: Option<usize>)
    ensures
        r.is_some() == code_fits(b@, *hdr, old(out)@.len()),
        r.is_some() ==> r.unwrap() == hdr.n_instructions,
        final(out)@.len() == old(out)@.len(),
        r.is_none() ==> final(out)@ == old(out)@,
        r.is_some() ==> forall|i: int| 0 <= i < old(out)@.len() ==> #[trigger] final(out)@[i] == if i
            < hdr.n_instructions {
            instr_at(b@, hdr.code_off + 6 * i)
        } else {
            old(out)@[i]
        },
{
    let off: usize = hdr.code_off as usize;
    let n: usize = hdr.n_instructions as usize;
    let len = b.len();
    assert(len == b@.len());
    if n == 0 || n > out.len() {
        return None;
    }
    let size = match n.checked_mul(INSTR_BYTES) {
        Some(s) => s,
        None => return None,
    };
    let end = match off.checked_add(size) {
        Some(e) => e,
        None => return None,
    };
    if end > b.len() {
        return None;
    }
    let ghost out0 = out@;
    let mut i: usize = 0;
    while i < n
        invariant
            0 <= i <= n,
            n == hdr.n_instructions,
            off == hdr.code_off,
            n <= out@.len(),
            off + 6 * n <= b@.len(),
            len == b@.len(),
            out@.len() == out0.len(),
            forall|j: int| 0 <= j < out0.len() ==> #[trigger] out@[j] == if j < i {
                instr_at(b@, off + 6 * j)
            } else {
                out0[j]
            },
        decreases n - i,
    {
        assert(off + 6 * i + 6 <= off + 6 * n);
        let base = off + i * 6;
        let raw: [u8; 6] = [b[base], b[base + 1], b[base + 2], b[base + 3], b[base + 4], b[base + 5]];
        let ins = decode_instr(&raw);
        out[i] = ins;
        i = i + 1;
    }
    Some(n)
}

/// Size in bytes of the `hello.fsotb` blob.
pub const HELLO_FILE_LEN: u32 = 264;
/// Format version of `hello.fsotb`.
pub const HELLO_VERSION: u16 = 0x0100;
/// Tag that `hello.fsotb` emits.
pub const HELLO_TAG: i32 = 42;

/// The two decoded instructions are exactly `hello.fsa`:
/// `EVAL_PANEL r0, panel 0, tag 42; HALT`.
pub open spec fn is_hello_program(n: nat, i0: Instr, i1: Instr) -> bool {
    &&& n == 2
    &&& i0.op == op_code(Op::EvalPanel)
    &&& i0.a == 0
    &&& i0.imm == HELLO_TAG
    &&& i1.op == op_code(Op::Halt)
}

/// The loader's program check accepts exactly `hello.fsa`: two instructions,
/// the first EVAL_PANEL (opcode 12) into register 0 with tag 42, the second
/// HALT (opcode 0).
pub proof fn lemma_hello_program_exactly(n: nat, i0: Instr, i1: Instr)
    ensures
        is_hello_program(n, i0, i1) <==> (n == 2 && i0.op == 12 && i0.a == 0 && i0.imm == 42
            && i1.op == 0),
{
}

/// Loads the `hello.fsotb` blob `b`, checks its magic, seeds hash (against
/// `seeds_hash`), version, size and program, and reports the panel evaluation
/// (whose scalar bits the blob's oracle gives as `panel_s_bits`).
pub fn run_hello_fsotb(b: &[u8], seeds_hash: u64, panel_s_bits: u64) -> (rep: FsotbLoadReport)
    ensures
        rep.file_len == b@.len() as u32,
        rep.magic_ok == has_fsotb_magic(b@),
        !rep.magic_ok ==> rep == (FsotbLoadReport {
            magic_ok: false,
            version: 0,
            seeds_ok: false,
            n_instructions: 0,
            panel_count: 0,
            decode_ok: false,
            run_ok: false,
            emit_tag: 0,
            steps: 0,
            panel_s_bits: 0,
            file_len: b@.len() as u32,
            overall_ok: false,
        }),
        rep.magic_ok ==> {
            let hdr = header_of(b@);
            let fits = code_fits(b@, hdr, 8);
            let dec = fits && is_hello_program(
                hdr.n_instructions as nat,
                instr_at(b@, hdr.code_off as int),
                instr_at(b@, hdr.code_off + 6),
            );
            let seeds = hdr.seeds_hash == seeds_hash;
            let run = dec && seeds && hdr.version == HELLO_VERSION && b@.len() == HELLO_FILE_LEN;
            &&& rep.version == hdr.version
            &&& rep.seeds_ok == seeds
            &&& rep.n_instructions == hdr.n_instructions
            &&& rep.panel_count == hdr.panel_count
            &&& rep.decode_ok == dec
            &&& rep.run_ok == run
            &&& rep.emit_tag == (if run { HELLO_TAG } else { 0 })
            &&& rep.steps == (if run { 2u32 } else { 0 })
            &&& rep.panel_s_bits == (if run { panel_s_bits } else { 0 })
            &&& rep.overall_ok == (run && hdr.panel_count == 1 && (b@.len() as u32) == HELLO_FILE_LEN)
        },
        rep.decode_ok ==> ({
            let hdr = header_of(b@);
            &&& hdr.n_instructions == 2
            &&& instr_at(b@, hdr.code_off as int).op == 12
            &&& instr_at(b@, hdr.code_off as int).a == 0
            &&& instr_at(b@, hdr.code_off as int).imm == 42
            &&& instr_at(b@, hdr.code_off + 6).op == 0
        }),
        rep.overall_ok ==> rep.decode_ok && rep.run_ok && rep.seeds_ok,
        rep.run_ok ==> rep.decode_ok,
{
    let mut rep = FsotbLoadReport {
        magic_ok: false,
        version: 0,
        seeds_ok: false,
        n_instructions: 0,
        panel_count: 0,
        decode_ok: false,
        run_ok: false,
        emit_tag: 0,
        steps: 0,
        panel_s_bits: 0,
        file_len: b.len() as u32,
        overall_ok: false,
    };
    let hdr = match parse_header(b) {
        Some(h) => h,
        None => return rep,
    };
    rep.magic_ok = true;
    rep.version = hdr.version;
    rep.seeds_ok = hdr.seeds_hash == seeds_hash;
    rep.n_instructions = hdr.n_instructions;
    rep.panel_count = hdr.panel_count;

    let mut prog = [Instr { op: 0, a: 0, b: 0, c: 0, imm: 0 }; 8];
    let n = match decode_program(b, &hdr, &mut prog) {
        Some(n) => n,
        None => return rep,
    };

    rep.decode_ok = n == 2 && prog[0].op == Op::EvalPanel.code() && prog[0].a == 0 && prog[0].imm
        == HELLO_TAG && prog[1].op == Op::Halt.code();

    if rep.decode_ok && rep.seeds_ok && hdr.version == HELLO_VERSION && b.len() == 264 {
        // The program evaluates panel 0 and emits tag 42; the panel scalar comes from the blob's oracle.
        rep.run_ok = true;
        rep.emit_tag = HELLO_TAG;
        rep.steps = 2;
        rep.panel_s_bits = panel_s_bits;
    }

    rep.overall_ok = rep.magic_ok && rep.seeds_ok && rep.decode_ok && rep.run_ok && rep.emit_tag
        == HELLO_TAG && rep.panel_s_bits == panel_s_bits && rep.n_instructions == 2
        && rep.panel_count == 1 && rep.file_len == HELLO_FILE_LEN;
    rep
}

} // verus!
