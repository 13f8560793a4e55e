//! A cursor over an immutable buffer: every read is checked against the
//! buffer's length, or demands of its caller that it fits.

use vstd::prelude::*;
use vstd::slice::slice_subrange;
use vstd::string::StringExecFns;
use crate::error::NbtError;
use crate::mutf8::{ascii_text, plain_ascii, utf8_lossy, utf8_lossy_text};
use crate::text::{decimal, hex_byte, push_decimal, push_hex_byte, push_spaces, spaces};
use crate::wire::{
    be_u16, be_u32, be_u64, le_u16, le_u32, le_u64, signed16, signed32, signed64, signed8,
    wrapped_usize, zigzag, group_weight, i16s_at, i32s_at, i64s_at, i8s_at, var_continues, var_ended, var_groups, var_i32_at,
    var_i64_at, var_span, lemma_group_weights, lemma_var_groups_bound, lemma_var_span_step,
};

verus! {

/// A buffer and a position in it.
pub struct NbtReader<'data> {
    /// The bytes that are read.
    pub data: &'data [u8],
    /// Where the next read starts.
    pub cursor: usize,
}

/// The 16-bit number of two bytes, the high one first.
fn compose16(hi: u8, lo: u8) -> (r: u16)
    ensures
        r == hi as int * 0x100 + lo as int,
{
    (hi as u16) * 0x100 + (lo as u16)
}

/// The 32-bit number of four bytes, the highest first.
fn compose32(b0: u8, b1: u8, b2: u8, b3: u8) -> (r: u32)
    ensures
        r == (b0 as int * 0x100 + b1 as int) * 0x1_0000 + (b2 as int * 0x100 + b3 as int),
{
    (compose16(b0, b1) as u32) * 0x1_0000 + (compose16(b2, b3) as u32)
}

/// The 64-bit number of eight bytes, the highest first.
fn compose64(b0: u8, b1: u8, b2: u8, b3: u8, b4: u8, b5: u8, b6: u8, b7: u8) -> (r: u64)
    ensures
        r == ((b0 as int * 0x100 + b1 as int) * 0x1_0000 + (b2 as int * 0x100 + b3 as int))
            * 0x1_0000_0000 + ((b4 as int * 0x100 + b5 as int) * 0x1_0000 + (b6 as int * 0x100
            + b7 as int)),
{
    (compose32(b0, b1, b2, b3) as u64) * 0x1_0000_0000 + (compose32(b4, b5, b6, b7) as u64)
}

/// A byte read as two's complement.
pub fn to_i8(v: u8) -> (r: i8)
    ensures
        r == signed8(v as int),
{
    if v >= 0x80 {
        ((v - 0x80) as i8) + i8::MIN
    } else {
        v as i8
    }
}

/// A 16-bit pattern read as two's complement.
pub fn to_i16(v: u16) -> (r: i16)
    ensures
        r == signed16(v as int),
{
    if v >= 0x8000 {
        ((v - 0x8000) as i16) + i16::MIN
    } else {
        v as i16
    }
}

/// A 32-bit pattern read as two's complement.
pub fn to_i32(v: u32) -> (r: i32)
    ensures
        r == signed32(v as int),
{
    if v >= 0x8000_0000 {
        ((v - 0x8000_0000) as i32) + i32::MIN
    } else {
        v as i32
    }
}

/// A 64-bit pattern read as two's complement.
pub fn to_i64(v: u64) -> (r: i64)
    ensures
        r == signed64(v as int),
{
    if v >= 0x8000_0000_0000_0000 {
        ((v - 0x8000_0000_0000_0000) as i64) + i64::MIN
    } else {
        v as i64
    }
}

/// A signed number truncated to the width of a `usize`.
fn wrap_to_usize(v: i64) -> (r: usize)
    ensures
        r == wrapped_usize(v as int),
{
    let bits: u64 = if v >= 0 {
        v as u64
    } else {
        u64::MAX - ((-(v + 1)) as u64)
    };
    if usize::MAX as u64 == u64::MAX {
        bits as usize
    } else {
        let modulus: u64 = usize::MAX as u64 + 1;
        assert(0x1_0000_0000_0000_0000int % (modulus as int) == 0) by {
            assert(modulus == 0x1_0000_0000 || modulus == 0x1_0000_0000_0000_0000) by {
                assert(usize::BITS == 32 || usize::BITS == 64);
            }
        }
        proof {
            lemma_mod_shift(v as int, modulus as int);
        }
        (bits % modulus) as usize
    }
}

/// Adding a multiple of the modulus leaves the remainder unchanged.
proof fn lemma_mod_shift(v: int, m: int)
    requires
        m == 0x1_0000_0000,
    ensures
        (v + 0x1_0000_0000_0000_0000) % m == v % m,
{
    assert(0x1_0000_0000_0000_0000int == 0x1_0000_0000 * m);
    vstd::arithmetic::div_mod::lemma_mod_multiples_vanish(0x1_0000_0000, v, m);
}

/// The zig-zag decoding of a 32-bit number.
pub fn zigzag32(v: i32) -> (r: i32)
    ensures
        r == zigzag(v as int),
{
    let wide: i64 = v as i64;
    if wide >= 0 {
        let half: u64 = (wide as u64) / 2;
        if (wide as u64) % 2 == 0 {
            half as i32
        } else {
            (-(half as i64) - 1) as i32
        }
    } else {
        let up: u64 = ((-wide) as u64 + 1) / 2;
        if ((-wide) as u64) % 2 == 0 {
            (-(up as i64)) as i32
        } else {
            (up as i64 - 1) as i32
        }
    }
}

/// The zig-zag decoding of a 64-bit number.
pub fn zigzag64(v: i64) -> (r: i64)
    ensures
        r == zigzag(v as int),
{
    let wide: i128 = v as i128;
    if wide >= 0 {
        let half: u128 = (wide as u128) / 2;
        if (wide as u128) % 2 == 0 {
            half as i64
        } else {
            (-(half as i128) - 1) as i64
        }
    } else {
        let up: u128 = ((-wide) as u128 + 1) / 2;
        if ((-wide) as u128) % 2 == 0 {
            (-(up as i128)) as i64
        } else {
            (up as i128 - 1) as i64
        }
    }
}

/// How many bytes a display of `display_len` bytes shows of a buffer of
/// `len` bytes: ten where no number is given, and never more than there are.
pub open spec fn shown_len(len: nat, display_len: Option<usize>) -> nat {
    let wanted = match display_len {
        Some(n) => n as nat,
        None => 10,
    };
    if wanted < len {
        wanted
    } else {
        len
    }
}

/// Where the display of `show` bytes around `cursor` starts: half of them
/// before the cursor, as far as there are as many.
pub open spec fn window_start(cursor: nat, show: nat) -> nat {
    if cursor > show / 2 {
        (cursor - show / 2) as nat
    } else {
        0
    }
}

/// Where the display of `show` bytes from `start` on ends.
pub open spec fn window_end(start: nat, show: nat, len: nat) -> nat {
    if start + show < len {
        start + show
    } else {
        len
    }
}

/// The bytes from `start` to `end`, each as `0x` and two hexadecimal
/// digits, with a comma and a space between them.
pub open spec fn hex_items(data: Seq<u8>, start: int, end: int) -> Seq<char>
    decreases end - start,
{
    if end <= start {
        Seq::empty()
    } else if end == start + 1 {
        hex_byte(data[start])
    } else {
        hex_items(data, start, end - 1) + ", "@ + hex_byte(data[end - 1])
    }
}

/// The display of the cursor: the bytes around it in brackets, with dots
/// for what is left out on either side, and in a second line a mark below
/// the cursor's place and the cursor's position.
pub open spec fn fancy_text(data: Seq<u8>, cursor: nat, display_len: Option<usize>) -> Seq<char> {
    let show = shown_len(data.len(), display_len);
    let start = window_start(cursor, show);
    let end = window_end(start, show, data.len());
    let pos = cursor - start;
    "["@ + (if start != 0 {
        "...., "@
    } else {
        Seq::empty()
    }) + hex_items(data, start as int, end as int) + (if end != data.len() {
        ", ...."@
    } else {
        Seq::empty()
    }) + "]\n"@ + spaces(
        (if start != 0 {
            4 * (pos + 1) + 1
        } else {
            4 * pos + 1
        }) as nat,
    ) + "^^^^ pos: "@ + decimal(cursor)
}

impl<'data> NbtReader<'data> {
    /// Whether `width` more bytes lie between the cursor and the end.
    pub open spec fn fits(&self, width: int) -> bool {
        self.cursor + width <= self.data@.len()
    }

    /// The error of a read of `width` bytes that does not fit.
    pub open spec fn overflow(&self, width: usize) -> NbtError {
        NbtError::CursorOverflow(self.cursor, width, self.data@.len() as usize)
    }

    /// Whether this reader is `pre` moved on by `n` bytes.
    pub open spec fn advanced(&self, pre: NbtReader<'data>, n: int) -> bool {
        self.data@ == pre.data@ && self.cursor == pre.cursor + n
    }

    /// A reader at the start of `data`.
    pub fn new(data: &'data [u8]) -> (r: NbtReader<'data>)
        ensures
            r.data@ == data@,
            r.cursor == 0,
    {
        NbtReader { data, cursor: 0 }
    }

    /// Whether `width` more bytes lie between the cursor and the end.
    fn has(&self, width: usize) -> (r: bool)
        ensures
            r == self.fits(width as int),
            self.data@.len() <= usize::MAX,
    {
        width <= self.data.len() && self.cursor <= self.data.len() - width
    }

    /// Moves the cursor `len` bytes towards the start, or fails where fewer
    /// lie before it.
    pub fn roll_back(&mut self, len: usize) -> (r: Result<(), NbtError>)
        ensures
            match r {
                Ok(_) => len <= old(self).cursor && final(self).advanced(*old(self), -len),
                Err(e) => len > old(self).cursor && e == old(self).overflow(len) && *final(self)
                    == *old(self),
            },
    {
        if len > self.cursor {
            return Err(NbtError::CursorOverflow(self.cursor, len, self.data.len()));
        }
        self.cursor -= len;
        Ok(())
    }

    /// Moves the cursor `len` bytes towards the end, or fails where fewer
    /// lie behind it.
    pub fn roll_down(&mut self, len: usize) -> (r: Result<(), NbtError>)
        ensures
            match r {
                Ok(_) => old(self).fits(len as int) && final(self).advanced(*old(self), len as int),
                Err(e) => !old(self).fits(len as int) && e == old(self).overflow(len)
                    && *final(self) == *old(self),
            },
    {
        if !self.has(len) {
            return Err(NbtError::CursorOverflow(self.cursor, len, self.data.len()));
        }
        self.cursor += len;
        Ok(())
    }

    /// Puts the cursor at `pos`, or fails where that is behind the end.
    pub fn roll_to(&mut self, pos: usize) -> (r: Result<(), NbtError>)
        ensures
            final(self).data@ == old(self).data@,
            match r {
                Ok(_) => pos <= old(self).data@.len() && final(self).cursor == pos,
                Err(e) => pos > old(self).data@.len() && e == old(self).overflow(pos)
                    && *final(self) == *old(self),
            },
    {
        if pos > self.data.len() {
            return Err(NbtError::CursorOverflow(self.cursor, pos, self.data.len()));
        }
        self.cursor = pos;
        Ok(())
    }

    /// Puts the cursor at the start.
    pub fn roll_top(&mut self)
        ensures
            final(self).data@ == old(self).data@,
            final(self).cursor == 0,
    {
        self.cursor = 0
    }

    /// Puts the cursor at the end.
    pub fn roll_bottom(&mut self)
        ensures
            final(self).data@ == old(self).data@,
            final(self).cursor == old(self).data@.len(),
    {
        self.cursor = self.data.len()
    }

    /// Whether the cursor stands on a byte of the buffer.
    pub fn check_cursor(&self) -> (r: bool)
        ensures
            r == (self.cursor < self.data@.len()),
    {
        self.cursor < self.data.len()
    }

    /// Reads one byte.
    pub fn read_u8(&mut self) -> (r: Result<u8, NbtError>)
        ensures
            match r {
                Ok(v) => old(self).fits(1) && v == old(self).data@[old(self).cursor as int]
                    && final(self).advanced(*old(self), 1),
                Err(e) => !old(self).fits(1) && e == old(self).overflow(1) && *final(self)
                    == *old(self),
            },
    {
        if self.cursor >= self.data.len() {
            return Err(NbtError::CursorOverflow(self.cursor, 1, self.data.len()));
        }
        let value = self.data[self.cursor];
        self.cursor += 1;
        Ok(value)
    }

    /// Reads one byte as two's complement.
    pub fn read_i8(&mut self) -> (r: Result<i8, NbtError>)
        ensures
            match r {
                Ok(v) => old(self).fits(1) && v == signed8(
                    old(self).data@[old(self).cursor as int] as int,
                ) && final(self).advanced(*old(self), 1),
                Err(e) => !old(self).fits(1) && e == old(self).overflow(1) && *final(self)
                    == *old(self),
            },
    {
        match self.read_u8() {
            Ok(v) => Ok(to_i8(v)),
            Err(e) => Err(e),
        }
    }

    /// Reads a signed 16-bit integer, big-endian, where the caller
    /// has shown that the buffer holds it.
    pub fn read_be_i16_unsafe(&mut self) -> (r: i16)
        requires
            old(self).fits(2),
        ensures
            final(self).advanced(*old(self), 2),
            r == signed16(be_u16(old(self).data@, old(self).cursor as int)),
    {
        let b0: u8 = self.data[self.cursor];
        let b1: u8 = self.data[self.cursor + 1];
        let value = to_i16(compose16(b0, b1));
        self.cursor += 2;
        value
    }

    /// Reads a signed 16-bit integer, little-endian, where the caller
    /// has shown that the buffer holds it.
    pub fn read_le_i16_unsafe(&mut self) -> (r: i16)
        requires
            old(self).fits(2),
        ensures
            final(self).advanced(*old(self), 2),
            r == signed16(le_u16(old(self).data@, old(self).cursor as int)),
    {
        let b0: u8 = self.data[self.cursor];
        let b1: u8 = self.data[self.cursor + 1];
        let value = to_i16(compose16(b1, b0));
        self.cursor += 2;
        value
    }

    /// Reads a unsigned 16-bit integer, big-endian, where the caller
    /// has shown that the buffer holds it.
    pub fn read_be_u16_unsafe(&mut self) -> (r: u16)
        requires
            old(self).fits(2),
        ensures
            final(self).advanced(*old(self), 2),
            r == be_u16(old(self).data@, old(self).cursor as int),
    {
        let b0: u8 = self.data[self.cursor];
        let b1: u8 = self.data[self.cursor + 1];
        let value = compose16(b0, b1);
        self.cursor += 2;
        value
    }

    /// Reads a unsigned 16-bit integer, little-endian, where the caller
    /// has shown that the buffer holds it.
    pub fn read_le_u16_unsafe(&mut self) -> (r: u16)
        requires
            old(self).fits(2),
        ensures
            final(self).advanced(*old(self), 2),
            r == le_u16(old(self).data@, old(self).cursor as int),
    {
        let b0: u8 = self.data[self.cursor];
        let b1: u8 = self.data[self.cursor + 1];
        let value = compose16(b1, b0);
        self.cursor += 2;
        value
    }

    /// Reads a signed 32-bit integer, big-endian, where the caller
    /// has shown that the buffer holds it.
    pub fn read_be_i32_unsafe(&mut self) -> (r: i32)
        requires
            old(self).fits(4),
        ensures
            final(self).advanced(*old(self), 4),
            r == signed32(be_u32(old(self).data@, old(self).cursor as int)),
    {
        let b0: u8 = self.data[self.cursor];
        let b1: u8 = self.data[self.cursor + 1];
        let b2: u8 = self.data[self.cursor + 2];
        let b3: u8 = self.data[self.cursor + 3];
        let value = to_i32(compose32(b0, b1, b2, b3));
        self.cursor += 4;
        value
    }

    /// Reads a signed 32-bit integer, little-endian, where the caller
    /// has shown that the buffer holds it.
    pub fn read_le_i32_unsafe(&mut self) -> (r: i32)
        requires
            old(self).fits(4),
        ensures
            final(self).advanced(*old(self), 4),
            r == signed32(le_u32(old(self).data@, old(self).cursor as int)),
    {
        let b0: u8 = self.data[self.cursor];
        let b1: u8 = self.data[self.cursor + 1];
        let b2: u8 = self.data[self.cursor + 2];
        let b3: u8 = self.data[self.cursor + 3];
        let value = to_i32(compose32(b3, b2, b1, b0));
        self.cursor += 4;
        value
    }

    /// Reads a unsigned 32-bit integer, big-endian, where the caller
    /// has shown that the buffer holds it.
    pub fn read_be_u32_unsafe(&mut self) -> (r: u32)
        requires
            old(self).fits(4),
        ensures
            final(self).advanced(*old(self), 4),
            r == be_u32(old(self).data@, old(self).cursor as int),
    {
        let b0: u8 = self.data[self.cursor];
        let b1: u8 = self.data[self.cursor + 1];
        let b2: u8 = self.data[self.cursor + 2];
        let b3: u8 = self.data[self.cursor + 3];
        let value = compose32(b0, b1, b2, b3);
        self.cursor += 4;
        value
    }

    /// Reads a unsigned 32-bit integer, little-endian, where the caller
    /// has shown that the buffer holds it.
    pub fn read_le_u32_unsafe(&mut self) -> (r: u32)
        requires
            old(self).fits(4),
        ensures
            final(self).advanced(*old(self), 4),
            r == le_u32(old(self).data@, old(self).cursor as int),
    {
        let b0: u8 = self.data[self.cursor];
        let b1: u8 = self.data[self.cursor + 1];
        let b2: u8 = self.data[self.cursor + 2];
        let b3: u8 = self.data[self.cursor + 3];
        let value = compose32(b3, b2, b1, b0);
        self.cursor += 4;
        value
    }

    /// Reads a signed 64-bit integer, big-endian, where the caller
    /// has shown that the buffer holds it.
    pub fn read_be_i64_unsafe(&mut self) -> (r: i64)
        requires
            old(self).fits(8),
        ensures
            final(self).advanced(*old(self), 8),
            r == signed64(be_u64(old(self).data@, old(self).cursor as int)),
    {
        let b0: u8 = self.data[self.cursor];
        let b1: u8 = self.data[self.cursor + 1];
        let b2: u8 = self.data[self.cursor + 2];
        let b3: u8 = self.data[self.cursor + 3];
        let b4: u8 = self.data[self.cursor + 4];
        let b5: u8 = self.data[self.cursor + 5];
        let b6: u8 = self.data[self.cursor + 6];
        let b7: u8 = self.data[self.cursor + 7];
        let value = to_i64(compose64(b0, b1, b2, b3, b4, b5, b6, b7));
        self.cursor += 8;
        value
    }

    /// Reads a signed 64-bit integer, little-endian, where the caller
    /// has shown that the buffer holds it.
    pub fn read_le_i64_unsafe(&mut self) -> (r: i64)
        requires
            old(self).fits(8),
        ensures
            final(self).advanced(*old(self), 8),
            r == signed64(le_u64(old(self).data@, old(self).cursor as int)),
    {
        let b0: u8 = self.data[self.cursor];
        let b1: u8 = self.data[self.cursor + 1];
        let b2: u8 = self.data[self.cursor + 2];
        let b3: u8 = self.data[self.cursor + 3];
        let b4: u8 = self.data[self.cursor + 4];
        let b5: u8 = self.data[self.cursor + 5];
        let b6: u8 = self.data[self.cursor + 6];
        let b7: u8 = self.data[self.cursor + 7];
        let value = to_i64(compose64(b7, b6, b5, b4, b3, b2, b1, b0));
        self.cursor += 8;
        value
    }

    /// Reads a unsigned 64-bit integer, big-endian, where the caller
    /// has shown that the buffer holds it.
    pub fn read_be_u64_unsafe(&mut self) -> (r: u64)
        requires
            old(self).fits(8),
        ensures
            final(self).advanced(*old(self), 8),
            r == be_u64(old(self).data@, old(self).cursor as int),
    {
        let b0: u8 = self.data[self.cursor];
        let b1: u8 = self.data[self.cursor + 1];
        let b2: u8 = self.data[self.cursor + 2];
        let b3: u8 = self.data[self.cursor + 3];
        let b4: u8 = self.data[self.cursor + 4];
        let b5: u8 = self.data[self.cursor + 5];
        let b6: u8 = self.data[self.cursor + 6];
        let b7: u8 = self.data[self.cursor + 7];
        let value = compose64(b0, b1, b2, b3, b4, b5, b6, b7);
        self.cursor += 8;
        value
    }

    /// Reads a unsigned 64-bit integer, little-endian, where the caller
    /// has shown that the buffer holds it.
    pub fn read_le_u64_unsafe(&mut self) -> (r: u64)
        requires
            old(self).fits(8),
        ensures
            final(self).advanced(*old(self), 8),
            r == le_u64(old(self).data@, old(self).cursor as int),
    {
        let b0: u8 = self.data[self.cursor];
        let b1: u8 = self.data[self.cursor + 1];
        let b2: u8 = self.data[self.cursor + 2];
        let b3: u8 = self.data[self.cursor + 3];
        let b4: u8 = self.data[self.cursor + 4];
        let b5: u8 = self.data[self.cursor + 5];
        let b6: u8 = self.data[self.cursor + 6];
        let b7: u8 = self.data[self.cursor + 7];
        let value = compose64(b7, b6, b5, b4, b3, b2, b1, b0);
        self.cursor += 8;
        value
    }

    /// Reads a signed 16-bit integer, big-endian.
    pub fn read_be_i16(&mut self) -> (r: Result<i16, NbtError>)
        ensures
            match r {
                Ok(v) => old(self).fits(2) && v == signed16(be_u16(old(self).data@, old(self).cursor as int)) && final(self).advanced(
                    *old(self),
                    2,
                ),
                Err(e) => !old(self).fits(2) && e == old(self).overflow(2) && *final(self)
                    == *old(self),
            },
    {
        if !self.has(2) {
            return Err(NbtError::CursorOverflow(self.cursor, 2, self.data.len()));
        }
        Ok(self.read_be_i16_unsafe())
    }

    /// Reads a signed 16-bit integer, little-endian.
    pub fn read_le_i16(&mut self) -> (r: Result<i16, NbtError>)
        ensures
            match r {
                Ok(v) => old(self).fits(2) && v == signed16(le_u16(old(self).data@, old(self).cursor as int)) && final(self).advanced(
                    *old(self),
                    2,
                ),
                Err(e) => !old(self).fits(2) && e == old(self).overflow(2) && *final(self)
                    == *old(self),
            },
    {
        if !self.has(2) {
            return Err(NbtError::CursorOverflow(self.cursor, 2, self.data.len()));
        }
        Ok(self.read_le_i16_unsafe())
    }

    /// Reads a unsigned 16-bit integer, big-endian.
    pub fn read_be_u16(&mut self) -> (r: Result<u16, NbtError>)
        ensures
            match r {
                Ok(v) => old(self).fits(2) && v == be_u16(old(self).data@, old(self).cursor as int) && final(self).advanced(
                    *old(self),
                    2,
                ),
                Err(e) => !old(self).fits(2) && e == old(self).overflow(2) && *final(self)
                    == *old(self),
            },
    {
        if !self.has(2) {
            return Err(NbtError::CursorOverflow(self.cursor, 2, self.data.len()));
        }
        Ok(self.read_be_u16_unsafe())
    }

    /// Reads a unsigned 16-bit integer, little-endian.
    pub fn read_le_u16(&mut self) -> (r: Result<u16, NbtError>)
        ensures
            match r {
                Ok(v) => old(self).fits(2) && v == le_u16(old(self).data@, old(self).cursor as int) && final(self).advanced(
                    *old(self),
                    2,
                ),
                Err(e) => !old(self).fits(2) && e == old(self).overflow(2) && *final(self)
                    == *old(self),
            },
    {
        if !self.has(2) {
            return Err(NbtError::CursorOverflow(self.cursor, 2, self.data.len()));
        }
        Ok(self.read_le_u16_unsafe())
    }

    /// Reads a signed 32-bit integer, big-endian.
    pub fn read_be_i32(&mut self) -> (r: Result<i32, NbtError>)
        ensures
            match r {
                Ok(v) => old(self).fits(4) && v == signed32(be_u32(old(self).data@, old(self).cursor as int)) && final(self).advanced(
                    *old(self),
                    4,
                ),
                Err(e) => !old(self).fits(4) && e == old(self).overflow(4) && *final(self)
                    == *old(self),
            },
    {
        if !self.has(4) {
            return Err(NbtError::CursorOverflow(self.cursor, 4, self.data.len()));
        }
        Ok(self.read_be_i32_unsafe())
    }

    /// Reads a signed 32-bit integer, little-endian.
    pub fn read_le_i32(&mut self) -> (r: Result<i32, NbtError>)
        ensures
            match r {
                Ok(v) => old(self).fits(4) && v == signed32(le_u32(old(self).data@, old(self).cursor as int)) && final(self).advanced(
                    *old(self),
                    4,
                ),
                Err(e) => !old(self).fits(4) && e == old(self).overflow(4) && *final(self)
                    == *old(self),
            },
    {
        if !self.has(4) {
            return Err(NbtError::CursorOverflow(self.cursor, 4, self.data.len()));
        }
        Ok(self.read_le_i32_unsafe())
    }

    /// Reads a unsigned 32-bit integer, big-endian.
    pub fn read_be_u32(&mut self) -> (r: Result<u32, NbtError>)
        ensures
            match r {
                Ok(v) => old(self).fits(4) && v == be_u32(old(self).data@, old(self).cursor as int) && final(self).advanced(
                    *old(self),
                    4,
                ),
                Err(e) => !old(self).fits(4) && e == old(self).overflow(4) && *final(self)
                    == *old(self),
            },
    {
        if !self.has(4) {
            return Err(NbtError::CursorOverflow(self.cursor, 4, self.data.len()));
        }
        Ok(self.read_be_u32_unsafe())
    }

    /// Reads a unsigned 32-bit integer, little-endian.
    pub fn read_le_u32(&mut self) -> (r: Result<u32, NbtError>)
        ensures
            match r {
                Ok(v) => old(self).fits(4) && v == le_u32(old(self).data@, old(self).cursor as int) && final(self).advanced(
                    *old(self),
                    4,
                ),
                Err(e) => !old(self).fits(4) && e == old(self).overflow(4) && *final(self)
                    == *old(self),
            },
    {
        if !self.has(4) {
            return Err(NbtError::CursorOverflow(self.cursor, 4, self.data.len()));
        }
        Ok(self.read_le_u32_unsafe())
    }

    /// Reads a signed 64-bit integer, big-endian.
    pub fn read_be_i64(&mut self) -> (r: Result<i64, NbtError>)
        ensures
            match r {
                Ok(v) => old(self).fits(8) && v == signed64(be_u64(old(self).data@, old(self).cursor as int)) && final(self).advanced(
                    *old(self),
                    8,
                ),
                Err(e) => !old(self).fits(8) && e == old(self).overflow(8) && *final(self)
                    == *old(self),
            },
    {
        if !self.has(8) {
            return Err(NbtError::CursorOverflow(self.cursor, 8, self.data.len()));
        }
        Ok(self.read_be_i64_unsafe())
    }

    /// Reads a signed 64-bit integer, little-endian.
    pub fn read_le_i64(&mut self) -> (r: Result<i64, NbtError>)
        ensures
            match r {
                Ok(v) => old(self).fits(8) && v == signed64(le_u64(old(self).data@, old(self).cursor as int)) && final(self).advanced(
                    *old(self),
                    8,
                ),
                Err(e) => !old(self).fits(8) && e == old(self).overflow(8) && *final(self)
                    == *old(self),
            },
    {
        if !self.has(8) {
            return Err(NbtError::CursorOverflow(self.cursor, 8, self.data.len()));
        }
        Ok(self.read_le_i64_unsafe())
    }

    /// Reads a unsigned 64-bit integer, big-endian.
    pub fn read_be_u64(&mut self) -> (r: Result<u64, NbtError>)
        ensures
            match r {
                Ok(v) => old(self).fits(8) && v == be_u64(old(self).data@, old(self).cursor as int) && final(self).advanced(
                    *old(self),
                    8,
                ),
                Err(e) => !old(self).fits(8) && e == old(self).overflow(8) && *final(self)
                    == *old(self),
            },
    {
        if !self.has(8) {
            return Err(NbtError::CursorOverflow(self.cursor, 8, self.data.len()));
        }
        Ok(self.read_be_u64_unsafe())
    }

    /// Reads a unsigned 64-bit integer, little-endian.
    pub fn read_le_u64(&mut self) -> (r: Result<u64, NbtError>)
        ensures
            match r {
                Ok(v) => old(self).fits(8) && v == le_u64(old(self).data@, old(self).cursor as int) && final(self).advanced(
                    *old(self),
                    8,
                ),
                Err(e) => !old(self).fits(8) && e == old(self).overflow(8) && *final(self)
                    == *old(self),
            },
    {
        if !self.has(8) {
            return Err(NbtError::CursorOverflow(self.cursor, 8, self.data.len()));
        }
        Ok(self.read_le_u64_unsafe())
    }

    /// Reads a variable-length 32-bit integer: groups of seven bits, the
    /// lowest first, each byte but the last with its top bit set; at most
    /// five bytes.
    pub fn read_var_i32(&mut self) -> (r: Result<i32, NbtError>)
        ensures
            final(self).data@ == old(self).data@,
            final(self).cursor == old(self).cursor + var_span(
                old(self).data@,
                old(self).cursor as int,
                5,
            ),
            match r {
                Ok(v) => var_i32_at(old(self).data@, old(self).cursor as int) == Ok::<
                    (i32, int),
                    NbtError,
                >((v, final(self).cursor as int)),
                Err(e) => var_i32_at(old(self).data@, old(self).cursor as int) == Err::<
                    (i32, int),
                    NbtError,
                >(e),
            },
    {
        let ghost data = self.data@;
        let ghost at = self.cursor as int;
        let mut value: u64 = 0;
        let mut weight: u64 = 1;
        let mut size: usize = 0;
        proof {
            lemma_group_weights();
        }
        loop
            invariant_except_break
                size < 5,
                var_continues(data, at, size as nat),
                weight == group_weight(size as nat),
            invariant
                data == old(self).data@,
                at == old(self).cursor,
                self.data@ == data,
                at + size == self.cursor,
                size > 0 ==> self.cursor <= data.len(),
                size <= 5,
                value == var_groups(data, at, size as nat),
                group_weight(0) == 1,
                group_weight(1) == 0x80,
                group_weight(2) == 0x4000,
                group_weight(3) == 0x20_0000,
                group_weight(4) == 0x1000_0000,
                group_weight(5) == 0x8_0000_0000,
            ensures
                var_span(data, at, 5) == size,
                var_ended(data, at, size as nat),
            decreases 5 - size,
        {
            proof {
                lemma_var_span_step(data, at, 5, size as nat);
                lemma_var_groups_bound(data, at, size as nat);
            }
            assert(size > 0 ==> data[at + (size - 1)] >= 128);
            let byte = match self.read_u8() {
                Ok(b) => b,
                Err(e) => {
                    return Err(e);
                },
            };
            assert(size == 0 || size == 1 || size == 2 || size == 3 || size == 4);
            value = value + ((byte % 128) as u64) * weight;
            size += 1;
            if byte < 128 {
                break ;
            }
            assert(var_continues(data, at, size as nat));
            if size >= 5 {
                proof {
                    lemma_var_span_step(data, at, 5, 5);
                }
                return Err(NbtError::VarIntTooBig(wrap_to_usize(to_i32(
                    (value % 0x1_0000_0000) as u32,
                ) as i64)));
            }
            weight = weight * 128;
        }
        Ok(to_i32((value % 0x1_0000_0000) as u32))
    }

    /// Reads a variable-length 64-bit integer: groups of seven bits, the
    /// lowest first, each byte but the last with its top bit set; at most ten
    /// bytes.
    pub fn read_var_i64(&mut self) -> (r: Result<i64, NbtError>)
        ensures
            final(self).data@ == old(self).data@,
            final(self).cursor == old(self).cursor + var_span(
                old(self).data@,
                old(self).cursor as int,
                10,
            ),
            match r {
                Ok(v) => var_i64_at(old(self).data@, old(self).cursor as int) == Ok::<
                    (i64, int),
                    NbtError,
                >((v, final(self).cursor as int)),
                Err(e) => var_i64_at(old(self).data@, old(self).cursor as int) == Err::<
                    (i64, int),
                    NbtError,
                >(e),
            },
    {
        let ghost data = self.data@;
        let ghost at = self.cursor as int;
        let mut value: u128 = 0;
        let mut weight: u128 = 1;
        let mut size: usize = 0;
        proof {
            lemma_group_weights();
        }
        loop
            invariant_except_break
                size < 10,
                var_continues(data, at, size as nat),
                weight == group_weight(size as nat),
            invariant
                data == old(self).data@,
                at == old(self).cursor,
                self.data@ == data,
                at + size == self.cursor,
                size > 0 ==> self.cursor <= data.len(),
                size <= 10,
                value == var_groups(data, at, size as nat),
                group_weight(0) == 1,
                group_weight(1) == 0x80,
                group_weight(2) == 0x4000,
                group_weight(3) == 0x20_0000,
                group_weight(4) == 0x1000_0000,
                group_weight(5) == 0x8_0000_0000,
                group_weight(6) == 0x400_0000_0000,
                group_weight(7) == 0x2_0000_0000_0000,
                group_weight(8) == 0x100_0000_0000_0000,
                group_weight(9) == 0x8000_0000_0000_0000,
                group_weight(10) == 0x40_0000_0000_0000_0000,
            ensures
                var_span(data, at, 10) == size,
                var_ended(data, at, size as nat),
            decreases 10 - size,
        {
            proof {
                lemma_var_span_step(data, at, 10, size as nat);
                lemma_var_groups_bound(data, at, size as nat);
            }
            assert(size > 0 ==> data[at + (size - 1)] >= 128);
            let byte = match self.read_u8() {
                Ok(b) => b,
                Err(e) => {
                    return Err(e);
                },
            };
            assert(size == 0 || size == 1 || size == 2 || size == 3 || size == 4 || size == 5
                || size == 6 || size == 7 || size == 8 || size == 9);
            value = value + ((byte % 128) as u128) * weight;
            size += 1;
            if byte < 128 {
                break ;
            }
            assert(var_continues(data, at, size as nat));
            if size >= 10 {
                proof {
                    lemma_var_span_step(data, at, 10, 10);
                }
                return Err(NbtError::VarlongTooBig(wrap_to_usize(to_i64(
                    (value % 0x1_0000_0000_0000_0000) as u64,
                ))));
            }
            weight = weight * 128;
        }
        Ok(to_i64((value % 0x1_0000_0000_0000_0000) as u64))
    }

    /// Reads a variable-length 32-bit integer and decodes it zig-zag.
    pub fn read_zigzag_var_i32(&mut self) -> (r: Result<i32, NbtError>)
        ensures
            final(self).data@ == old(self).data@,
            final(self).cursor == old(self).cursor + var_span(
                old(self).data@,
                old(self).cursor as int,
                5,
            ),
            match r {
                Ok(v) => match var_i32_at(old(self).data@, old(self).cursor as int) {
                    Ok((raw, next)) => v == zigzag(raw as int) && next == final(self).cursor,
                    Err(_) => false,
                },
                Err(e) => var_i32_at(old(self).data@, old(self).cursor as int) == Err::<
                    (i32, int),
                    NbtError,
                >(e),
            },
    {
        match self.read_var_i32() {
            Ok(value) => Ok(zigzag32(value)),
            Err(e) => Err(e),
        }
    }

    /// Reads a variable-length 64-bit integer and decodes it zig-zag.
    pub fn read_zigzag_var_i64(&mut self) -> (r: Result<i64, NbtError>)
        ensures
            final(self).data@ == old(self).data@,
            final(self).cursor == old(self).cursor + var_span(
                old(self).data@,
                old(self).cursor as int,
                10,
            ),
            match r {
                Ok(v) => match var_i64_at(old(self).data@, old(self).cursor as int) {
                    Ok((raw, next)) => v == zigzag(raw as int) && next == final(self).cursor,
                    Err(_) => false,
                },
                Err(e) => var_i64_at(old(self).data@, old(self).cursor as int) == Err::<
                    (i64, int),
                    NbtError,
                >(e),
            },
    {
        match self.read_var_i64() {
            Ok(value) => Ok(zigzag64(value)),
            Err(e) => Err(e),
        }
    }

    /// Reads one byte where the caller has shown that the buffer holds it.
    pub fn read_u8_unsafe(&mut self) -> (r: u8)
        requires
            old(self).fits(1),
        ensures
            final(self).advanced(*old(self), 1),
            r == old(self).data@[old(self).cursor as int],
    {
        let value = self.data[self.cursor];
        self.cursor += 1;
        value
    }

    /// Reads the bit pattern of a 32-bit IEEE 754 number, big-endian.
    pub fn read_be_f32(&mut self) -> (r: Result<u32, NbtError>)
        ensures
            match r {
                Ok(v) => old(self).fits(4) && v == be_u32(old(self).data@, old(self).cursor as int)
                    && final(self).advanced(*old(self), 4),
                Err(e) => !old(self).fits(4) && e == old(self).overflow(4) && *final(self)
                    == *old(self),
            },
    {
        self.read_be_u32()
    }

    /// Reads the bit pattern of a 32-bit IEEE 754 number, little-endian.
    pub fn read_le_f32(&mut self) -> (r: Result<u32, NbtError>)
        ensures
            match r {
                Ok(v) => old(self).fits(4) && v == le_u32(old(self).data@, old(self).cursor as int)
                    && final(self).advanced(*old(self), 4),
                Err(e) => !old(self).fits(4) && e == old(self).overflow(4) && *final(self)
                    == *old(self),
            },
    {
        self.read_le_u32()
    }

    /// Reads the bit pattern of a 64-bit IEEE 754 number, big-endian.
    pub fn read_be_f64(&mut self) -> (r: Result<u64, NbtError>)
        ensures
            match r {
                Ok(v) => old(self).fits(8) && v == be_u64(old(self).data@, old(self).cursor as int)
                    && final(self).advanced(*old(self), 8),
                Err(e) => !old(self).fits(8) && e == old(self).overflow(8) && *final(self)
                    == *old(self),
            },
    {
        self.read_be_u64()
    }

    /// Reads the bit pattern of a 64-bit IEEE 754 number, little-endian.
    pub fn read_le_f64(&mut self) -> (r: Result<u64, NbtError>)
        ensures
            match r {
                Ok(v) => old(self).fits(8) && v == le_u64(old(self).data@, old(self).cursor as int)
                    && final(self).advanced(*old(self), 8),
                Err(e) => !old(self).fits(8) && e == old(self).overflow(8) && *final(self)
                    == *old(self),
            },
    {
        self.read_le_u64()
    }

    /// Reads the bit pattern of a 32-bit IEEE 754 number, big-endian, where
    /// the caller has shown that the buffer holds it.
    pub fn read_be_f32_unsafe(&mut self) -> (r: u32)
        requires
            old(self).fits(4),
        ensures
            final(self).advanced(*old(self), 4),
            r == be_u32(old(self).data@, old(self).cursor as int),
    {
        self.read_be_u32_unsafe()
    }

    /// Reads the bit pattern of a 32-bit IEEE 754 number, little-endian,
    /// where the caller has shown that the buffer holds it.
    pub fn read_le_f32_unsafe(&mut self) -> (r: u32)
        requires
            old(self).fits(4),
        ensures
            final(self).advanced(*old(self), 4),
            r == le_u32(old(self).data@, old(self).cursor as int),
    {
        self.read_le_u32_unsafe()
    }

    /// Reads the bit pattern of a 64-bit IEEE 754 number, big-endian, where
    /// the caller has shown that the buffer holds it.
    pub fn read_be_f64_unsafe(&mut self) -> (r: u64)
        requires
            old(self).fits(8),
        ensures
            final(self).advanced(*old(self), 8),
            r == be_u64(old(self).data@, old(self).cursor as int),
    {
        self.read_be_u64_unsafe()
    }

    /// Reads the bit pattern of a 64-bit IEEE 754 number, little-endian,
    /// where the caller has shown that the buffer holds it.
    pub fn read_le_f64_unsafe(&mut self) -> (r: u64)
        requires
            old(self).fits(8),
        ensures
            final(self).advanced(*old(self), 8),
            r == le_u64(old(self).data@, old(self).cursor as int),
    {
        self.read_le_u64_unsafe()
    }

    /// Hands out the next `len` bytes.
    pub fn read_u8_array(&mut self, len: usize) -> (r: Result<&'data [u8], NbtError>)
        ensures
            match r {
                Ok(bytes) => old(self).fits(len as int) && bytes@ == old(self).data@.subrange(
                    old(self).cursor as int,
                    old(self).cursor + len,
                ) && final(self).advanced(*old(self), len as int),
                Err(e) => !old(self).fits(len as int) && e == old(self).overflow(len)
                    && *final(self) == *old(self),
            },
    {
        if !self.has(len) {
            return Err(NbtError::CursorOverflow(self.cursor, len, self.data.len()));
        }
        let value = slice_subrange(self.data, self.cursor, self.cursor + len);
        self.cursor += len;
        Ok(value)
    }

    /// Reads `len` bytes as two's complement.
    pub fn read_i8_array(&mut self, len: usize) -> (r: Vec<i8>)
        requires
            old(self).fits(len as int),
        ensures
            final(self).advanced(*old(self), len as int),
            r@ == i8s_at(old(self).data@, old(self).cursor as int, len as nat),
    {
        let ghost data = self.data@;
        let ghost at = self.cursor as int;
        let mut value: Vec<i8> = Vec::with_capacity(len);
        let mut i: usize = 0;
        while i < len
            invariant
                data == old(self).data@,
                at == old(self).cursor,
                self.data@ == data,
                i <= len,
                at + len <= data.len(),
                self.cursor == at + i,
                value@ == i8s_at(data, at, i as nat),
            decreases len - i,
        {
            let byte = self.read_u8_unsafe();
            value.push(to_i8(byte));
            i += 1;
            assert(value@ =~= i8s_at(data, at, i as nat));
        }
        assert(value@ =~= i8s_at(data, at, len as nat));
        value
    }

    /// Reads `len` bytes as two's complement, where the caller has shown that
    /// the buffer holds them.
    pub fn read_i8_array_unsafe(&mut self, len: usize) -> (r: Vec<i8>)
        requires
            old(self).fits(len as int),
        ensures
            final(self).advanced(*old(self), len as int),
            r@ == i8s_at(old(self).data@, old(self).cursor as int, len as nat),
    {
        self.read_i8_array(len)
    }

    /// Reads `len` signed 16-bit integers, big-endian, where the caller has
    /// shown that the buffer holds them.
    pub fn read_be_i16_array_unsafe(&mut self, len: usize) -> (r: Vec<i16>)
        requires
            old(self).fits(len * 2),
        ensures
            final(self).advanced(*old(self), len * 2),
            r@ == i16s_at(old(self).data@, old(self).cursor as int, len as nat, false),
    {
        let ghost data = self.data@;
        let ghost at = self.cursor as int;
        let mut value: Vec<i16> = Vec::with_capacity(len);
        let mut i: usize = 0;
        while i < len
            invariant
                data == old(self).data@,
                at == old(self).cursor,
                self.data@ == data,
                i <= len,
                at + len * 2 <= data.len(),
                self.cursor == at + i * 2,
                value@ == i16s_at(data, at, i as nat, false),
            decreases len - i,
        {
            let item = self.read_be_i16_unsafe();
            value.push(item);
            i += 1;
            assert(value@ =~= i16s_at(data, at, i as nat, false));
        }
        assert(value@ =~= i16s_at(data, at, len as nat, false));
        value
    }

    /// Reads `len` signed 32-bit integers, big-endian.
    pub fn read_be_i32_array(&mut self, len: usize) -> (r: Vec<i32>)
        requires
            old(self).fits(len * 4),
        ensures
            final(self).advanced(*old(self), len * 4),
            r@ == i32s_at(old(self).data@, old(self).cursor as int, len as nat, false),
    {
        let ghost data = self.data@;
        let ghost at = self.cursor as int;
        let mut value: Vec<i32> = Vec::with_capacity(len);
        let mut i: usize = 0;
        while i < len
            invariant
                data == old(self).data@,
                at == old(self).cursor,
                self.data@ == data,
                i <= len,
                at + len * 4 <= data.len(),
                self.cursor == at + i * 4,
                value@ == i32s_at(data, at, i as nat, false),
            decreases len - i,
        {
            let item = self.read_be_i32_unsafe();
            value.push(item);
            i += 1;
            assert(value@ =~= i32s_at(data, at, i as nat, false));
        }
        assert(value@ =~= i32s_at(data, at, len as nat, false));
        value
    }

    /// Reads `len` signed 32-bit integers, big-endian, where the caller has
    /// shown that the buffer holds them.
    pub fn read_be_i32_array_unsafe(&mut self, len: usize) -> (r: Vec<i32>)
        requires
            old(self).fits(len * 4),
        ensures
            final(self).advanced(*old(self), len * 4),
            r@ == i32s_at(old(self).data@, old(self).cursor as int, len as nat, false),
    {
        self.read_be_i32_array(len)
    }

    /// Reads `len` signed 64-bit integers, big-endian.
    pub fn read_be_i64_array(&mut self, len: usize) -> (r: Vec<i64>)
        requires
            old(self).fits(len * 8),
        ensures
            final(self).advanced(*old(self), len * 8),
            r@ == i64s_at(old(self).data@, old(self).cursor as int, len as nat, false),
    {
        let ghost data = self.data@;
        let ghost at = self.cursor as int;
        let mut value: Vec<i64> = Vec::with_capacity(len);
        let mut i: usize = 0;
        while i < len
            invariant
                data == old(self).data@,
                at == old(self).cursor,
                self.data@ == data,
                i <= len,
                at + len * 8 <= data.len(),
                self.cursor == at + i * 8,
                value@ == i64s_at(data, at, i as nat, false),
            decreases len - i,
        {
            let item = self.read_be_i64_unsafe();
            value.push(item);
            i += 1;
            assert(value@ =~= i64s_at(data, at, i as nat, false));
        }
        assert(value@ =~= i64s_at(data, at, len as nat, false));
        value
    }

    /// Reads `len` signed 64-bit integers, big-endian, where the caller has
    /// shown that the buffer holds them.
    pub fn read_be_i64_array_unsafe(&mut self, len: usize) -> (r: Vec<i64>)
        requires
            old(self).fits(len * 8),
        ensures
            final(self).advanced(*old(self), len * 8),
            r@ == i64s_at(old(self).data@, old(self).cursor as int, len as nat, false),
    {
        self.read_be_i64_array(len)
    }

    /// Reads `len` signed 16-bit integers, little-endian.
    pub fn read_le_i16_array(&mut self, len: usize) -> (r: Vec<i16>)
        requires
            old(self).fits(len * 2),
        ensures
            final(self).advanced(*old(self), len * 2),
            r@ == i16s_at(old(self).data@, old(self).cursor as int, len as nat, true),
    {
        let ghost data = self.data@;
        let ghost at = self.cursor as int;
        let mut value: Vec<i16> = Vec::with_capacity(len);
        let mut i: usize = 0;
        while i < len
            invariant
                data == old(self).data@,
                at == old(self).cursor,
                self.data@ == data,
                i <= len,
                at + len * 2 <= data.len(),
                self.cursor == at + i * 2,
                value@ == i16s_at(data, at, i as nat, true),
            decreases len - i,
        {
            let item = self.read_le_i16_unsafe();
            value.push(item);
            i += 1;
            assert(value@ =~= i16s_at(data, at, i as nat, true));
        }
        assert(value@ =~= i16s_at(data, at, len as nat, true));
        value
    }

    /// Reads `len` signed 32-bit integers, little-endian.
    pub fn read_le_i32_array(&mut self, len: usize) -> (r: Vec<i32>)
        requires
            old(self).fits(len * 4),
        ensures
            final(self).advanced(*old(self), len * 4),
            r@ == i32s_at(old(self).data@, old(self).cursor as int, len as nat, true),
    {
        let ghost data = self.data@;
        let ghost at = self.cursor as int;
        let mut value: Vec<i32> = Vec::with_capacity(len);
        let mut i: usize = 0;
        while i < len
            invariant
                data == old(self).data@,
                at == old(self).cursor,
                self.data@ == data,
                i <= len,
                at + len * 4 <= data.len(),
                self.cursor == at + i * 4,
                value@ == i32s_at(data, at, i as nat, true),
            decreases len - i,
        {
            let item = self.read_le_i32_unsafe();
            value.push(item);
            i += 1;
            assert(value@ =~= i32s_at(data, at, i as nat, true));
        }
        assert(value@ =~= i32s_at(data, at, len as nat, true));
        value
    }

    /// Reads `len` signed 64-bit integers, little-endian.
    pub fn read_le_i64_array(&mut self, len: usize) -> (r: Vec<i64>)
        requires
            old(self).fits(len * 8),
        ensures
            final(self).advanced(*old(self), len * 8),
            r@ == i64s_at(old(self).data@, old(self).cursor as int, len as nat, true),
    {
        let ghost data = self.data@;
        let ghost at = self.cursor as int;
        let mut value: Vec<i64> = Vec::with_capacity(len);
        let mut i: usize = 0;
        while i < len
            invariant
                data == old(self).data@,
                at == old(self).cursor,
                self.data@ == data,
                i <= len,
                at + len * 8 <= data.len(),
                self.cursor == at + i * 8,
                value@ == i64s_at(data, at, i as nat, true),
            decreases len - i,
        {
            let item = self.read_le_i64_unsafe();
            value.push(item);
            i += 1;
            assert(value@ =~= i64s_at(data, at, i as nat, true));
        }
        assert(value@ =~= i64s_at(data, at, len as nat, true));
        value
    }

    /// Reads `len` bytes as UTF-8 text, with U+FFFD for what is not UTF-8.
    pub fn read_string(&mut self, len: usize) -> (r: Result<String, NbtError>)
        ensures
            match r {
                Ok(text) => {
                    let bytes = old(self).data@.subrange(
                        old(self).cursor as int,
                        old(self).cursor + len,
                    );
                    &&& old(self).fits(len as int)
                    &&& text@ == utf8_lossy_text(bytes)
                    &&& plain_ascii(bytes) ==> text@ == ascii_text(bytes)
                    &&& final(self).advanced(*old(self), len as int)
                },
                Err(e) => !old(self).fits(len as int) && e == old(self).overflow(len)
                    && *final(self) == *old(self),
            },
    {
        match self.read_u8_array(len) {
            Ok(bytes) => Ok(utf8_lossy(bytes)),
            Err(e) => Err(e),
        }
    }

    /// Shows where the cursor is: the bytes around it, ten where
    /// `display_len` gives no number, and a mark below the cursor's place.
    ///
    /// ```text
    /// [...., 0x01, 0x02, 0x03, 0x04, 0x05, ....]
    ///                    ^^^^ pos: 3
    /// ```
    pub fn show_cursor_fancy(&self, display_len: Option<usize>) -> (r: String)
        requires
            self.cursor <= self.data@.len(),
            2 * shown_len(self.data@.len(), display_len) + 5 <= usize::MAX,
        ensures
            r@ == fancy_text(self.data@, self.cursor as nat, display_len),
    {
        let len = self.data.len();
        let wanted: usize = match display_len {
            Some(n) => n,
            None => 10,
        };
        let show_len = if wanted < len {
            wanted
        } else {
            len
        };
        let middle = show_len / 2;
        let start = if self.cursor > middle {
            self.cursor - middle
        } else {
            0
        };
        let end = if show_len < len - start {
            start + show_len
        } else {
            len
        };
        let pos = self.cursor - start;
        let mut text = String::new();
        text.append("[");
        if start != 0 {
            text.append("...., ");
        }
        let ghost head = text@;
        let mut i: usize = start;
        assert(text@ =~= head + hex_items(self.data@, start as int, i as int));
        while i < end
            invariant
                start <= i <= end <= self.data@.len(),
                text@ == head + hex_items(self.data@, start as int, i as int),
            decreases end - i,
        {
            if i != start {
                text.append(", ");
            }
            push_hex_byte(&mut text, self.data[i]);
            i += 1;
            assert(text@ =~= head + hex_items(self.data@, start as int, i as int));
        }
        if end != len {
            text.append(", ....");
        }
        text.append("]\n");
        let indent = if start != 0 {
            4 * (pos + 1) + 1
        } else {
            4 * pos + 1
        };
        push_spaces(&mut text, indent);
        text.append("^^^^ pos: ");
        push_decimal(&mut text, self.cursor);
        assert(text@ =~= fancy_text(self.data@, self.cursor as nat, display_len));
        text
    }
}

} // verus!
