//! Text output logic of the boot console: decimal rendering of integers and
//! the cursor of the 80x25 VGA text screen. The bytes themselves reach the
//! serial port and the screen buffer outside the verified core.

use vstd::prelude::*;

verus! {

/// Columns of the VGA text screen.
pub const VGA_WIDTH: usize = 80;
/// Rows of the VGA text screen.
pub const VGA_HEIGHT: usize = 25;
/// Attribute byte (white on black) in the high half of a screen cell.
pub const VGA_ATTR: u16 = 0x0F00;

/// Value of a sequence of ASCII decimal digits, most significant first.
pub open spec fn digits_value(ds: Seq<u8>) -> int
    decreases ds.len(),
{
    if ds.len() == 0 {
        0
    } else {
        digits_value(ds.drop_last()) * 10 + (ds.last() - 48)
    }
}

/// `ds` is the canonical decimal spelling of a number: ASCII digits, at least
/// one, no leading zero unless the number is 0.
pub open spec fn is_decimal(ds: Seq<u8>) -> bool {
    &&& ds.len() >= 1
    &&& forall|i: int| 0 <= i < ds.len() ==> 48 <= #[trigger] ds[i] <= 57
    &&& ds.len() > 1 ==> ds[0] != 48
}

/// Digits are read most significant first: a digit put in front of `ds` adds
/// its value times `10^len(ds)`.
pub proof fn lemma_digits_prepend(d: u8, ds: Seq<u8>)
    ensures
        digits_value(seq![d] + ds) == (d - 48) * pow10(ds.len()) + digits_value(ds),
    decreases ds.len(),
{
    let s = seq![d] + ds;
    if ds.len() == 0 {
        assert(s =~= seq![d]);
        assert(s.drop_last() =~= Seq::<u8>::empty());
        assert(s.last() == d);
        assert(digits_value(s) == digits_value(s.drop_last()) * 10 + (s.last() - 48));
    } else {
        lemma_digits_prepend(d, ds.drop_last());
        assert(s.drop_last() =~= seq![d] + ds.drop_last());
        assert(s.last() == ds.last());
        assert(digits_value(s) == digits_value(s.drop_last()) * 10 + (s.last() - 48));
        assert(digits_value(ds) == digits_value(ds.drop_last()) * 10 + (ds.last() - 48));
        assert(pow10(ds.len()) == 10 * pow10((ds.len() - 1) as nat));
        assert(((d - 48) * pow10((ds.len() - 1) as nat) + digits_value(ds.drop_last())) * 10
            == (d - 48) * pow10(ds.len()) + digits_value(ds.drop_last()) * 10) by (nonlinear_arith)
            requires
                pow10(ds.len()) == 10 * pow10((ds.len() - 1) as nat),
        ;
    }
}

/// `10^k`.
pub open spec fn pow10(k: nat) -> int
    decreases k,
{
    if k == 0 { 1 } else { 10 * pow10((k - 1) as nat) }
}

proof fn lemma_pow10_pos(k: nat)
    ensures
        pow10(k) >= 1,
    decreases k,
{
    if k > 0 {
        lemma_pow10_pos((k - 1) as nat);
    }
}

proof fn lemma_digits_bound(ds: Seq<u8>)
    requires
        forall|i: int| 0 <= i < ds.len() ==> 48 <= #[trigger] ds[i] <= 57,
    ensures
        0 <= digits_value(ds) < pow10(ds.len()),
    decreases ds.len(),
{
    if ds.len() > 0 {
        lemma_digits_bound(ds.drop_last());
        let v = digits_value(ds.drop_last());
        let p = pow10((ds.len() - 1) as nat);
        assert(ds.last() == ds[ds.len() - 1]);
        assert(v * 10 + (ds.last() - 48) < p * 10) by (nonlinear_arith)
            requires
                0 <= v < p,
                0 <= ds.last() - 48 <= 9,
        ;
    }
}

/// Decimal spelling of `n`, most significant digit first.
pub fn decimal_digits(n: u64) -> (ds: Vec<u8>)
    ensures
        is_decimal(ds@),
        digits_value(ds@) == n,
{
    if n == 0 {
        let ds = vec![48u8];
        assert(ds@.drop_last() =~= Seq::<u8>::empty());
        assert(ds@.last() == 48);
        assert(digits_value(ds@) == digits_value(ds@.drop_last()) * 10 + (ds@.last() - 48));
        return ds;
    }
    let mut ds: Vec<u8> = Vec::new();
    let mut t: u64 = n;
    while t > 0
        invariant
            forall|i: int| 0 <= i < ds@.len() ==> 48 <= #[trigger] ds@[i] <= 57,
            t * pow10(ds@.len()) + digits_value(ds@) == n,
            t == 0 ==> ds@.len() >= 1 && ds@[0] != 48,
            n > 0,
        decreases t,
    {
        let d: u8 = 48 + (t % 10) as u8;
        proof {
            lemma_digits_prepend(d, ds@);
            lemma_digits_bound(ds@);
            lemma_pow10_pos(ds@.len());
            let p = pow10(ds@.len());
            assert(pow10(ds@.len() + 1) == 10 * p);
            assert(t * p == (t / 10) * (10 * p) + (t % 10) * p) by (nonlinear_arith)
                requires
                    t >= 0,
            ;
        }
        let ghost old_ds = ds@;
        ds.insert(0, d);
        assert(ds@ =~= seq![d] + old_ds);
        t = t / 10;
        proof {
            if t == 0 {
                assert(ds@[0] == d);
            }
        }
    }
    ds
}

/// Decimal spelling of `n` with a leading `-` when negative (the magnitude of
/// `i32::MIN` is not representable, so it is left out).
pub fn signed_decimal(n: i32) -> (ds: Vec<u8>)
    requires
        n != i32::MIN,
    ensures
        n < 0 ==> ds@.len() >= 2 && ds@[0] == 45 && is_decimal(ds@.drop_first()) && digits_value(ds@.drop_first()) == -n,
        n >= 0 ==> is_decimal(ds@) && digits_value(ds@) == n,
{
    if n < 0 {
        let mut ds = vec![45u8];
        let mut mag = decimal_digits((-n) as u64);
        let ghost m = mag@;
        ds.append(&mut mag);
        assert(ds@.drop_first() =~= m);
        ds
    } else {
        decimal_digits(n as u64)
    }
}

/// Row after a line break: the next row, wrapping to the top of the screen.
pub open spec fn next_row(row: int) -> int {
    if row + 1 >= VGA_HEIGHT { 0 } else { row + 1 }
}

/// Screen cell showing `byte` in white on black.
pub open spec fn vga_cell(byte: u8) -> u16 {
    VGA_ATTR | (byte as u16)
}

/// Effect of one byte on the cursor `(row, col)`: a newline moves to the start
/// of the next row; any other byte first wraps a full row, then is written at
/// the cursor (cell index `row * 80 + col`) and the cursor advances.
pub open spec fn vga_step(cur: (int, int), byte: u8) -> ((int, int), Option<(usize, u16)>) {
    if byte == 10 {
        ((next_row(cur.0), 0), None)
    } else {
        let rc = if cur.1 >= VGA_WIDTH { (next_row(cur.0), 0int) } else { cur };
        ((rc.0, rc.1 + 1), Some(((rc.0 * VGA_WIDTH + rc.1) as usize, vga_cell(byte))))
    }
}

/// Cursor and cell writes after writing `bytes` from cursor `cur`.
pub open spec fn vga_run(cur: (int, int), bytes: Seq<u8>) -> ((int, int), Seq<(usize, u16)>)
    decreases bytes.len(),
{
    if bytes.len() == 0 {
        (cur, Seq::empty())
    } else {
        let pre = vga_run(cur, bytes.drop_last());
        let st = vga_step(pre.0, bytes.last());
        (st.0, match st.1 {
            Some(w) => pre.1.push(w),
            None => pre.1,
        })
    }
}

/// The cursor is on the screen (a column of 80 means the row is full).
pub open spec fn cursor_ok(cur: (int, int)) -> bool {
    0 <= cur.0 < VGA_HEIGHT && 0 <= cur.1 <= VGA_WIDTH
}

/// Writing any bytes from an on-screen cursor leaves the cursor on screen and
/// writes only cells inside the 80x25 buffer.
pub proof fn lemma_vga_run_ok(cur: (int, int), bytes: Seq<u8>)
    requires
        cursor_ok(cur),
    ensures
        cursor_ok(vga_run(cur, bytes).0),
        forall|k: int| 0 <= k < vga_run(cur, bytes).1.len() ==> #[trigger] vga_run(cur, bytes).1[k].0
            < VGA_WIDTH * VGA_HEIGHT,
    decreases bytes.len(),
{
    if bytes.len() > 0 {
        lemma_vga_run_ok(cur, bytes.drop_last());
    }
}

/// Text that fits on the rest of a row is laid out left to right: writing
/// bytes without a newline from column `c` of row `r`, as long as they fit
/// before column 80, puts byte `k` in white on black into cell `r * 80 + c + k`
/// and leaves the cursor just after the last of them.
pub proof fn lemma_vga_row_layout(cur: (int, int), bytes: Seq<u8>)
    requires
        cursor_ok(cur),
        cur.1 + bytes.len() <= VGA_WIDTH,
        forall|k: int| 0 <= k < bytes.len() ==> #[trigger] bytes[k] != 10,
    ensures
        vga_run(cur, bytes).0 == (cur.0, cur.1 + bytes.len()),
        vga_run(cur, bytes).1.len() == bytes.len(),
        forall|k: int| 0 <= k < bytes.len() ==> #[trigger] vga_run(cur, bytes).1[k] == (
            (cur.0 * 80 + cur.1 + k) as usize,
            (0x0F00u16 | (bytes[k] as u16)) as u16,
        ),
    decreases bytes.len(),
{
    if bytes.len() > 0 {
        let pre = bytes.drop_last();
        assert forall|k: int| 0 <= k < pre.len() implies #[trigger] pre[k] != 10 by {
            assert(pre[k] == bytes[k]);
        }
        lemma_vga_run_ok(cur, pre);
        lemma_vga_row_layout(cur, pre);
        assert(bytes.last() == bytes[bytes.len() - 1]);
        let r = vga_run(cur, bytes);
        assert forall|k: int| 0 <= k < bytes.len() implies #[trigger] r.1[k] == (
            (cur.0 * 80 + cur.1 + k) as usize,
            (0x0F00u16 | (bytes[k] as u16)) as u16,
        ) by {
            if k < pre.len() {
                assert(bytes[k] == pre[k]);
            }
        }
    }
}

/// A newline writes no cell and moves the cursor to the start of the next
/// row, from the last row back to the first.
pub proof fn lemma_vga_newline(cur: (int, int))
    requires
        cursor_ok(cur),
    ensures
        vga_step(cur, 10).1 is None,
        cur.0 < 24 ==> vga_step(cur, 10).0 == (cur.0 + 1, 0int),
        cur.0 == 24 ==> vga_step(cur, 10).0 == (0int, 0int),
{
}

/// Cursor of the VGA text screen; it decides which cell each byte goes to.
pub struct VgaWriter {
    row: usize,
    col: usize,
}

impl VgaWriter {
    /// Cursor position `(row, col)`.
    pub closed spec fn cursor(&self) -> (int, int) {
        (self.row as int, self.col as int)
    }

    /// The cursor is on the screen.
    pub closed spec fn wf(&self) -> bool {
        cursor_ok(self.cursor())
    }

    /// A cursor at the top-left corner.
    pub fn new() -> (w: Self)
        ensures
            w.wf(),
            w.cursor() == (0int, 0int),
    {
        Self { row: 0, col: 0 }
    }

    /// Moves the cursor back to the top-left corner (after the screen is blanked).
    pub fn home(&mut self)
        ensures
            final(self).wf(),
            final(self).cursor() == (0int, 0int),
    {
        self.row = 0;
        self.col = 0;
    }

    /// Places one byte: returns the cell index and cell value to store, or
    /// `None` for a newline (see `vga_step`).
    pub fn write_byte(&mut self, byte: u8) -> (w: Option<(usize, u16)>)
        requires
            old(self).wf(),
        ensures
            final(self).wf(),
            (final(self).cursor(), w) == vga_step(old(self).cursor(), byte),
            w matches Some(c) ==> c.0 < VGA_WIDTH * VGA_HEIGHT,
    {
        if byte == 10 {
            self.col = 0;
            self.row = self.row + 1;
            if self.row >= VGA_HEIGHT {
                self.row = 0;
            }
            None
        } else {
            if self.col >= VGA_WIDTH {
                self.col = 0;
                self.row = self.row + 1;
                if self.row >= VGA_HEIGHT {
                    self.row = 0;
                }
            }
            let idx = self.row * VGA_WIDTH + self.col;
            self.col = self.col + 1;
            Some((idx, VGA_ATTR | (byte as u16)))
        }
    }

    /// Places every byte of `s` in turn; returns the cell writes in order.
    pub fn write_str(&mut self, s: &[u8]) -> (ws: Vec<(usize, u16)>)
        requires
            old(self).wf(),
        ensures
            final(self).wf(),
            (final(self).cursor(), ws@) == vga_run(old(self).cursor(), s@),
            forall|k: int| 0 <= k < ws@.len() ==> #[trigger] ws@[k].0 < VGA_WIDTH * VGA_HEIGHT,
    {
        let ghost c0 = self.cursor();
        proof {
            lemma_vga_run_ok(c0, s@);
        }
        let mut ws: Vec<(usize, u16)> = Vec::new();
        let mut i: usize = 0;
        while i < s.len()
            invariant
                self.wf(),
                0 <= i <= s@.len(),
                (self.cursor(), ws@) == vga_run(c0, s@.subrange(0, i as int)),
            decreases s@.len() - i,
        {
            proof {
                assert(s@.subrange(0, i + 1).drop_last() =~= s@.subrange(0, i as int));
            }
            match self.write_byte(s[i]) {
                Some(w) => ws.push(w),
                None => {},
            }
            i = i + 1;
        }
        assert(s@.subrange(0, s@.len() as int) =~= s@);
        assert(ws@ == vga_run(c0, s@).1);
        ws
    }
}

} // verus!
