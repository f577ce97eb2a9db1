//! Decoding of PS/2 scan codes (set 1, US layout subset) read by
//! polling the keyboard controller.

use vstd::prelude::*;

verus! {

/// I/O port of the PS/2 controller's data register.
pub const KBD_DATA_PORT: u16 = 0x60;
/// I/O port of the PS/2 controller's status register.
pub const KBD_STATUS_PORT: u16 = 0x64;
/// Status bit 0: the output buffer holds a byte for the CPU.
pub const STATUS_OUTPUT_FULL: u8 = 0x1;

/// A decoded key press.
#[derive(Clone, Copy, PartialEq, Eq, Structural, Debug)]
pub enum KeyEvent {
    /// A printable character.
    Char(u8),
    /// The Enter key.
    Enter,
    /// The Backspace key.
    Backspace,
}

/// Characters of the number row, scan codes 0x02..=0x0D.
pub open spec fn number_row() -> Seq<u8> {
    seq![49u8, 50u8, 51u8, 52u8, 53u8, 54u8, 55u8, 56u8, 57u8, 48u8, 45u8, 61u8]
}

/// Characters of the QWERTY row, scan codes 0x10..=0x1B.
pub open spec fn qwerty_row() -> Seq<u8> {
    seq![113u8, 119u8, 101u8, 114u8, 116u8, 121u8, 117u8, 105u8, 111u8, 112u8, 91u8, 93u8]
}

/// Characters of the ASDF row, scan codes 0x1E..=0x29.
pub open spec fn asdf_row() -> Seq<u8> {
    seq![97u8, 115u8, 100u8, 102u8, 103u8, 104u8, 106u8, 107u8, 108u8, 59u8, 39u8, 96u8]
}

/// Characters of the ZXCV row, scan codes 0x2C..=0x35.
pub open spec fn zxcv_row() -> Seq<u8> {
    seq![122u8, 120u8, 99u8, 118u8, 98u8, 110u8, 109u8, 44u8, 46u8, 47u8]
}

/// The character of a make code on the US layout subset: the four letter
/// and number rows, backslash (0x2B) and space (0x39).
pub open spec fn key_char(sc: u8) -> Option<u8> {
    if 0x02 <= sc <= 0x0D {
        Some(number_row()[sc - 0x02])
    } else if 0x10 <= sc <= 0x1B {
        Some(qwerty_row()[sc - 0x10])
    } else if 0x1E <= sc <= 0x29 {
        Some(asdf_row()[sc - 0x1E])
    } else if 0x2C <= sc <= 0x35 {
        Some(zxcv_row()[sc - 0x2C])
    } else if sc == 0x2B {
        Some(92u8)
    } else if sc == 0x39 {
        Some(32u8)
    } else {
        None
    }
}

/// The key event of a make code: Enter (0x1C), Backspace (0x0E), a
/// character (see `key_char`), or none for any other code.
pub open spec fn spec_decode_scancode(sc: u8) -> Option<KeyEvent> {
    if sc == 0x1C {
        Some(KeyEvent::Enter)
    } else if sc == 0x0E {
        Some(KeyEvent::Backspace)
    } else {
        match key_char(sc) {
            Some(c) => Some(KeyEvent::Char(c)),
            None => None,
        }
    }
}

/// Decode a scan code (set 1) into a key event (see `spec_decode_scancode`).
pub fn decode_scancode(scancode: u8) -> (e: Option<KeyEvent>)
    ensures
        e == spec_decode_scancode(scancode),
{
    let event = match scancode {
        0x02 => KeyEvent::Char(49u8),  // '1'
        0x03 => KeyEvent::Char(50u8),  // '2'
        0x04 => KeyEvent::Char(51u8),  // '3'
        0x05 => KeyEvent::Char(52u8),  // '4'
        0x06 => KeyEvent::Char(53u8),  // '5'
        0x07 => KeyEvent::Char(54u8),  // '6'
        0x08 => KeyEvent::Char(55u8),  // '7'
        0x09 => KeyEvent::Char(56u8),  // '8'
        0x0A => KeyEvent::Char(57u8),  // '9'
        0x0B => KeyEvent::Char(48u8),  // '0'
        0x0C => KeyEvent::Char(45u8),  // '-'
        0x0D => KeyEvent::Char(61u8),  // '='
        0x10 => KeyEvent::Char(113u8),  // 'q'
        0x11 => KeyEvent::Char(119u8),  // 'w'
        0x12 => KeyEvent::Char(101u8),  // 'e'
        0x13 => KeyEvent::Char(114u8),  // 'r'
        0x14 => KeyEvent::Char(116u8),  // 't'
        0x15 => KeyEvent::Char(121u8),  // 'y'
        0x16 => KeyEvent::Char(117u8),  // 'u'
        0x17 => KeyEvent::Char(105u8),  // 'i'
        0x18 => KeyEvent::Char(111u8),  // 'o'
        0x19 => KeyEvent::Char(112u8),  // 'p'
        0x1A => KeyEvent::Char(91u8),  // '['
        0x1B => KeyEvent::Char(93u8),  // ']'
        0x1E => KeyEvent::Char(97u8),  // 'a'
        0x1F => KeyEvent::Char(115u8),  // 's'
        0x20 => KeyEvent::Char(100u8),  // 'd'
        0x21 => KeyEvent::Char(102u8),  // 'f'
        0x22 => KeyEvent::Char(103u8),  // 'g'
        0x23 => KeyEvent::Char(104u8),  // 'h'
        0x24 => KeyEvent::Char(106u8),  // 'j'
        0x25 => KeyEvent::Char(107u8),  // 'k'
        0x26 => KeyEvent::Char(108u8),  // 'l'
        0x27 => KeyEvent::Char(59u8),  // ';'
        0x28 => KeyEvent::Char(39u8),  // "'"
        0x29 => KeyEvent::Char(96u8),  // '`'
        0x2B => KeyEvent::Char(92u8),  // '\\'
        0x2C => KeyEvent::Char(122u8),  // 'z'
        0x2D => KeyEvent::Char(120u8),  // 'x'
        0x2E => KeyEvent::Char(99u8),  // 'c'
        0x2F => KeyEvent::Char(118u8),  // 'v'
        0x30 => KeyEvent::Char(98u8),  // 'b'
        0x31 => KeyEvent::Char(110u8),  // 'n'
        0x32 => KeyEvent::Char(109u8),  // 'm'
        0x33 => KeyEvent::Char(44u8),  // ','
        0x34 => KeyEvent::Char(46u8),  // '.'
        0x35 => KeyEvent::Char(47u8),  // '/'
        0x39 => KeyEvent::Char(32u8),  // ' '
        0x1C => KeyEvent::Enter,
        0x0E => KeyEvent::Backspace,
        _ => {
            return None;
        },
    };
    Some(event)
}

/// Whether the controller's status byte says a scan code is waiting.
pub fn output_buffer_full(status: u8) -> (full: bool)
    ensures
        full == (status & STATUS_OUTPUT_FULL != 0),
{
    status & STATUS_OUTPUT_FULL != 0
}

/// One poll of the keyboard: `status` is the status register and
/// `scancode` the data register (only read when the status says it is
/// full). A waiting make code is decoded; break codes (bit 7 set) and
/// unknown codes give `None`, as does an empty controller.
pub fn poll_keyboard(status: u8, scancode: u8) -> (e: Option<KeyEvent>)
    ensures
        e == if status & STATUS_OUTPUT_FULL != 0 && scancode & 0x80 == 0 {
            spec_decode_scancode(scancode)
        } else {
            None
        },
{
    if status & STATUS_OUTPUT_FULL != 0 {
        if scancode & 0x80 != 0 {
            return None;
        }
        return decode_scancode(scancode);
    }
    None
}

/// Decoding follows the US layout table: Enter (0x1C) and Backspace
/// (0x0E) are keys of their own, every other code gives the character of
/// `key_char`, or nothing where the table has none.
pub proof fn law_decode_follows_layout(sc: u8)
    ensures
        sc == 0x1C ==> spec_decode_scancode(sc) == Some(KeyEvent::Enter),
        sc == 0x0E ==> spec_decode_scancode(sc) == Some(KeyEvent::Backspace),
        sc != 0x1C && sc != 0x0E ==> spec_decode_scancode(sc) == match key_char(sc) {
            Some(c) => Some(KeyEvent::Char(c)),
            None => None::<KeyEvent>,
        },
{
}

/// The letter keys (0x10..=0x19, 0x1E..=0x26, 0x2C..=0x32) give lower-case
/// letters, no two of them the same; the digit keys 0x02..=0x0A give '1'
/// to '9' in order and 0x0B gives '0'; 0x39 is the space bar.
pub proof fn law_decode_letters_and_digits(sc: u8, sc2: u8)
    ensures
        (0x10 <= sc <= 0x19 || 0x1E <= sc <= 0x26 || 0x2C <= sc <= 0x32) ==>
            (spec_decode_scancode(sc) matches Some(KeyEvent::Char(c)) && 97 <= c <= 122),
        (0x10 <= sc <= 0x19 || 0x1E <= sc <= 0x26 || 0x2C <= sc <= 0x32)
            && (0x10 <= sc2 <= 0x19 || 0x1E <= sc2 <= 0x26 || 0x2C <= sc2 <= 0x32) && sc != sc2
            ==> spec_decode_scancode(sc) != spec_decode_scancode(sc2),
        0x02 <= sc <= 0x0A ==> spec_decode_scancode(sc) == Some(KeyEvent::Char((sc + 47) as u8)),
        spec_decode_scancode(0x0B) == Some(KeyEvent::Char(48u8)),
        spec_decode_scancode(0x39) == Some(KeyEvent::Char(32u8)),
{
    assert(qwerty_row().len() == 12 && asdf_row().len() == 12 && zxcv_row().len() == 10 && number_row().len() == 12);
}

/// The letter rows spell the US layout: "qwertyuiop" from 0x10,
/// "asdfghjkl" from 0x1E and "zxcvbnm" from 0x2C.
pub proof fn law_decode_letter_rows(i: int)
    ensures
        0 <= i < 10 ==> spec_decode_scancode((0x10 + i) as u8)
            == Some(KeyEvent::Char(seq![113u8, 119u8, 101u8, 114u8, 116u8, 121u8, 117u8, 105u8, 111u8, 112u8][i])),
        0 <= i < 9 ==> spec_decode_scancode((0x1E + i) as u8)
            == Some(KeyEvent::Char(seq![97u8, 115u8, 100u8, 102u8, 103u8, 104u8, 106u8, 107u8, 108u8][i])),
        0 <= i < 7 ==> spec_decode_scancode((0x2C + i) as u8)
            == Some(KeyEvent::Char(seq![122u8, 120u8, 99u8, 118u8, 98u8, 110u8, 109u8][i])),
{
}

/// A poll reads a key only when bit 0 of the status byte is set and the
/// code is a make code (bit 7 clear); it then gives the decoded key.
pub proof fn law_poll_needs_full_buffer(status: u8, scancode: u8)
    ensures
        (status & STATUS_OUTPUT_FULL != 0) == (status & 1 == 1),
        (if status & STATUS_OUTPUT_FULL != 0 && scancode & 0x80 == 0 { spec_decode_scancode(scancode) } else { None })
            == if status & 1 == 1 && scancode < 0x80 { spec_decode_scancode(scancode) } else { None },
{
    assert((status & 1u8 != 0) == (status & 1u8 == 1u8)) by (bit_vector);
    assert((scancode & 0x80u8 == 0) == (scancode < 0x80u8)) by (bit_vector);
}

} // verus!
