//! The VGA text screen (80 x 25 cells of character and colour byte) with
//! a cursor, and the formatting of hexadecimal debug output.

use vstd::prelude::*;
use vstd::string::StringSliceAdditionalSpecFns;

verus! {

/// Default colour byte: light grey on black.
pub const VGA_COLOR_DEFAULT: u8 = 0x07;
/// Character columns.
pub const VGA_COLUMNS: usize = 80;
/// Character rows.
pub const VGA_ROWS: usize = 25;
/// Bytes per cell (character, attribute).
pub const VGA_CELL_BYTES: usize = 2;
/// Characters on the screen.
pub const VGA_MAX_CHARS: usize = 2000;
/// Bytes of the text buffer.
pub const VGA_BUFFER_BYTES: usize = 4000;

/// The text buffer and the cursor (a character index, which keeps counting
/// past the end of the screen).
pub struct VgaWriter {
    cells: Vec<u8>,
    cursor: usize,
}

/// The cursor after a byte is written at `pos`: a newline moves to the
/// start of the next row (wrapping to the top after the last row), a
/// carriage return to the start of the row, anything else one cell on.
pub open spec fn cursor_after(pos: usize, byte: u8) -> usize {
    if byte == 10u8 {
        if pos / VGA_COLUMNS < VGA_ROWS - 1 { ((pos / VGA_COLUMNS + 1) * VGA_COLUMNS) as usize } else { 0 }
    } else if byte == 13u8 {
        ((pos / VGA_COLUMNS) * VGA_COLUMNS) as usize
    } else {
        if pos == usize::MAX { 0 } else { (pos + 1) as usize }
    }
}

/// The text buffer after `byte` is written with the cursor at `pos`: a
/// printable byte at a position on the screen fills that cell with the
/// byte and the default colour.
pub open spec fn cells_after(cells: Seq<u8>, pos: usize, byte: u8) -> Seq<u8> {
    if byte != 10u8 && byte != 13u8 && pos < VGA_MAX_CHARS {
        cells.update(2 * pos, byte).update(2 * pos + 1, VGA_COLOR_DEFAULT)
    } else {
        cells
    }
}

/// The screen after writing every byte of `bytes`, as (cells, cursor).
pub open spec fn screen_after(cells: Seq<u8>, pos: usize, bytes: Seq<u8>) -> (Seq<u8>, usize)
    decreases bytes.len(),
{
    if bytes.len() == 0 {
        (cells, pos)
    } else {
        let (c, p) = screen_after(cells, pos, bytes.drop_last());
        (cells_after(c, p, bytes.last()), cursor_after(p, bytes.last()))
    }
}

/// How the kernel's writer moves its cursor and fills cells, for every
/// cursor on the screen (cells 0..2000, 80 per row): a newline on rows 0
/// to 23 goes to the start of the next row and only one on the last row
/// wraps to the top; a carriage return goes to the start of the row; any
/// other byte is stored at the cursor's cell (character, then colour) and
/// moves one cell on. Newlines and carriage returns change no cell.
pub proof fn law_writer_cursor(cells: Seq<u8>, pos: usize, byte: u8)
    requires
        pos < 2000,
    ensures
        pos < 1920 ==> cursor_after(pos, 10) == (pos - pos % 80 + 80) as usize,
        pos >= 1920 ==> cursor_after(pos, 10) == 0,
        cursor_after(pos, 13) == (pos - pos % 80) as usize,
        byte != 10 && byte != 13 ==> cursor_after(pos, byte) == pos + 1,
        byte != 10 && byte != 13 ==> cells_after(cells, pos, byte) == cells.update(2 * pos, byte).update(2 * pos + 1, 7u8),
        cells_after(cells, pos, 10) == cells && cells_after(cells, pos, 13) == cells,
{
    let row = pos / 80;
    assert(row * 80 + pos % 80 == pos);
    assert((row + 1) * 80 == row * 80 + 80);
}

/// Printing `a` and then `b` leaves the screen as printing `a + b` does.
pub proof fn law_print_concat(cells: Seq<u8>, pos: usize, a: Seq<u8>, b: Seq<u8>)
    ensures
        screen_after(cells, pos, a + b) == screen_after(screen_after(cells, pos, a).0, screen_after(cells, pos, a).1, b),
    decreases b.len(),
{
    if b.len() == 0 {
        assert(a + b =~= a);
    } else {
        law_print_concat(cells, pos, a, b.drop_last());
        assert((a + b).drop_last() =~= a + b.drop_last());
        assert((a + b).last() == b.last());
    }
}

/// A blank screen: every cell a space in the default colour.
pub open spec fn blank_cells() -> Seq<u8> {
    Seq::new(VGA_BUFFER_BYTES as nat, |i: int| if i % 2 == 0 { 32u8 } else { VGA_COLOR_DEFAULT })
}

impl VgaWriter {
    /// The text buffer.
    pub closed spec fn cells(&self) -> Seq<u8> {
        self.cells@
    }

    /// The cursor.
    pub closed spec fn cursor(&self) -> usize {
        self.cursor
    }

    /// The buffer has its full size.
    pub open spec fn wf(&self) -> bool {
        self.cells().len() == VGA_BUFFER_BYTES
    }

    /// The cursor's character index.
    pub fn cursor_pos(&self) -> (c: usize)
        ensures
            c == self.cursor(),
    {
        self.cursor
    }

    /// Byte `i` of the text buffer.
    pub fn cell(&self, i: usize) -> (b: u8)
        requires
            self.wf(),
            i < VGA_BUFFER_BYTES,
        ensures
            b == self.cells()[i as int],
    {
        self.cells[i]
    }

    /// A blank screen with the cursor at the top-left corner.
    pub fn new() -> (w: Self)
        ensures
            w.wf(),
            w.cells() == blank_cells(),
            w.cursor() == 0,
    {
        let mut w = VgaWriter { cells: vec![0u8; VGA_BUFFER_BYTES], cursor: 0 };
        w.clear_screen();
        w
    }

    /// Fill the screen with blanks and move the cursor to the top-left corner.
    pub fn clear_screen(&mut self)
        requires
            old(self).wf(),
        ensures
            final(self).wf(),
            final(self).cells() == blank_cells(),
            final(self).cursor() == 0,
    {
        let mut i: usize = 0;
        while i < VGA_BUFFER_BYTES
            invariant
                self.cells@.len() == VGA_BUFFER_BYTES,
                i <= VGA_BUFFER_BYTES,
                i % 2 == 0,
                forall|k: int| 0 <= k < i ==> #[trigger] self.cells@[k] == blank_cells()[k],
            decreases VGA_BUFFER_BYTES - i,
        {
            self.cells.set(i, 32u8);
            self.cells.set(i + 1, VGA_COLOR_DEFAULT);
            i += 2;
        }
        assert(self.cells@ =~= blank_cells());
        self.cursor = 0;
    }

    /// Write one byte at the cursor (see `cursor_after` and `cells_after`).
    pub fn write_byte(&mut self, byte: u8)
        requires
            old(self).wf(),
        ensures
            final(self).wf(),
            final(self).cursor() == cursor_after(old(self).cursor(), byte),
            final(self).cells() == cells_after(old(self).cells(), old(self).cursor(), byte),
    {
        match byte {
            10u8 => {
                let row = self.cursor / VGA_COLUMNS;
                if row < VGA_ROWS - 1 {
                    self.cursor = (row + 1) * VGA_COLUMNS;
                } else {
                    self.cursor = 0;
                }
            },
            13u8 => {
                let row = self.cursor / VGA_COLUMNS;
                self.cursor = row * VGA_COLUMNS;
            },
            _ => {
                let pos = self.cursor;
                self.cursor = pos.wrapping_add(1);
                if pos < VGA_MAX_CHARS {
                    let offset = pos * VGA_CELL_BYTES;
                    self.cells.set(offset, byte);
                    self.cells.set(offset + 1, VGA_COLOR_DEFAULT);
                }
            },
        }
    }

    /// Write every byte of `s`, in order.
    pub fn print_vga(&mut self, s: &str)
        requires
            old(self).wf(),
        ensures
            final(self).wf(),
            (final(self).cells(), final(self).cursor()) == screen_after(old(self).cells(), old(self).cursor(), s.spec_bytes()),
    {
        let bytes = s.as_bytes();
        let mut i: usize = 0;
        while i < bytes.len()
            invariant
                self.wf(),
                bytes@ == s.spec_bytes(),
                i <= bytes@.len(),
                (self.cells(), self.cursor()) == screen_after(old(self).cells(), old(self).cursor(), bytes@.take(i as int)),
            decreases bytes@.len() - i,
        {
            proof {
                assert(bytes@.take(i + 1).drop_last() =~= bytes@.take(i as int));
            }
            self.write_byte(bytes[i]);
            i += 1;
        }
        assert(bytes@.take(bytes@.len() as int) =~= bytes@);
    }
}

/// The ASCII hexadecimal digit of `v` (upper case); `v` is below 16.
pub open spec fn spec_hex_nibble(v: u8) -> u8 {
    if v < 10 { (48 + v) as u8 } else { (65 + v - 10) as u8 }
}

/// The ASCII hexadecimal digit of a nibble.
pub fn hex_nibble(v: u8) -> (d: u8)
    requires
        v < 16,
    ensures
        d == spec_hex_nibble(v),
{
    if v < 10 { 48u8 + v } else { 65u8 + v - 10 }
}

/// A nibble's digit is '0'..'9' for 0..9 and 'A'..'F' for 10..15, and
/// the nibble can be read back from it; different nibbles have different
/// digits.
pub proof fn law_hex_digit(v: u8, w: u8)
    requires
        v < 16,
        w < 16,
    ensures
        v < 10 ==> 48 <= spec_hex_nibble(v) <= 57 && spec_hex_nibble(v) - 48 == v,
        v >= 10 ==> 65 <= spec_hex_nibble(v) <= 70 && spec_hex_nibble(v) - 55 == v,
        v != w ==> spec_hex_nibble(v) != spec_hex_nibble(w),
{
}

/// The 16 hexadecimal digits of `val`, most significant first.
pub open spec fn hex_digits(val: u64) -> Seq<u8> {
    Seq::new(16, |k: int| spec_hex_nibble(((val >> ((4 * (15 - k)) as u64)) & 0xF) as u8))
}

/// The 16 hexadecimal digits of `val`, most significant first, as sent to
/// the serial port.
pub fn hex_u64_digits(val: u64) -> (d: Vec<u8>)
    ensures
        d@ == hex_digits(val),
{
    let mut d: Vec<u8> = Vec::new();
    let mut i: usize = 16;
    while i > 0
        invariant
            i <= 16,
            d@.len() == 16 - i,
            forall|k: int| 0 <= k < d@.len() ==> #[trigger] d@[k] == hex_digits(val)[k],
        decreases i,
    {
        i -= 1;
        let shift = (i * 4) as u64;
        assert((val >> shift) & 0xF < 16) by (bit_vector);
        let nib = ((val >> shift) & 0xF) as u8;
        d.push(hex_nibble(nib));
    }
    assert(d@ =~= hex_digits(val));
    d
}

/// The serial line for a labelled debug value: the label, `": "`, the 16
/// hexadecimal digits of `val` and a newline.
pub fn hex_line(label: &str, val: u64) -> (line: Vec<u8>)
    ensures
        line@ == label.spec_bytes() + seq![58u8, 32u8] + hex_digits(val) + seq![10u8],
{
    let bytes = label.as_bytes();
    let mut line: Vec<u8> = Vec::new();
    let mut i: usize = 0;
    while i < bytes.len()
        invariant
            bytes@ == label.spec_bytes(),
            i <= bytes@.len(),
            line@ == bytes@.take(i as int),
        decreases bytes@.len() - i,
    {
        line.push(bytes[i]);
        assert(line@ =~= bytes@.take(i + 1));
        i += 1;
    }
    line.push(58u8);
    line.push(32u8);
    let digits = hex_u64_digits(val);
    let mut j: usize = 0;
    let ghost prefix = line@;
    while j < 16
        invariant
            digits@ == hex_digits(val),
            j <= 16,
            line@ == prefix + digits@.take(j as int),
        decreases 16 - j,
    {
        line.push(digits[j]);
        assert(line@ =~= prefix + digits@.take(j + 1));
        j += 1;
    }
    line.push(10u8);
    assert(line@ =~= label.spec_bytes() + seq![58u8, 32u8] + hex_digits(val) + seq![10u8]);
    line
}

} // verus!
