//! What the bytes of a buffer mean as integers: fixed-width in both byte
//! orders, and variable-length groups of seven bits.

use vstd::prelude::*;
use crate::error::NbtError;

verus! {

/// The 16-bit number whose high byte is at `at`.
pub open spec fn be_u16(data: Seq<u8>, at: int) -> int {
    data[at] as int * 0x100 + data[at + 1] as int
}

/// The 16-bit number whose low byte is at `at`.
pub open spec fn le_u16(data: Seq<u8>, at: int) -> int {
    data[at] as int + data[at + 1] as int * 0x100
}

/// The 32-bit number whose highest byte is at `at`.
pub open spec fn be_u32(data: Seq<u8>, at: int) -> int {
    be_u16(data, at) * 0x1_0000 + be_u16(data, at + 2)
}

/// The 32-bit number whose lowest byte is at `at`.
pub open spec fn le_u32(data: Seq<u8>, at: int) -> int {
    le_u16(data, at) + le_u16(data, at + 2) * 0x1_0000
}

/// The 64-bit number whose highest byte is at `at`.
pub open spec fn be_u64(data: Seq<u8>, at: int) -> int {
    be_u32(data, at) * 0x1_0000_0000 + be_u32(data, at + 4)
}

/// The 64-bit number whose lowest byte is at `at`.
pub open spec fn le_u64(data: Seq<u8>, at: int) -> int {
    le_u32(data, at) + le_u32(data, at + 4) * 0x1_0000_0000
}

/// The 16-bit number at `at` in the given byte order.
pub open spec fn u16_at(data: Seq<u8>, at: int, little: bool) -> int {
    if little {
        le_u16(data, at)
    } else {
        be_u16(data, at)
    }
}

/// The 32-bit number at `at` in the given byte order.
pub open spec fn u32_at(data: Seq<u8>, at: int, little: bool) -> int {
    if little {
        le_u32(data, at)
    } else {
        be_u32(data, at)
    }
}

/// The 64-bit number at `at` in the given byte order.
pub open spec fn u64_at(data: Seq<u8>, at: int, little: bool) -> int {
    if little {
        le_u64(data, at)
    } else {
        be_u64(data, at)
    }
}

/// An 8-bit pattern read as two's complement.
pub open spec fn signed8(v: int) -> int {
    if v >= 0x80 {
        v - 0x100
    } else {
        v
    }
}

/// A 16-bit pattern read as two's complement.
pub open spec fn signed16(v: int) -> int {
    if v >= 0x8000 {
        v - 0x1_0000
    } else {
        v
    }
}

/// A 32-bit pattern read as two's complement.
pub open spec fn signed32(v: int) -> int {
    if v >= 0x8000_0000 {
        v - 0x1_0000_0000
    } else {
        v
    }
}

/// A 64-bit pattern read as two's complement.
pub open spec fn signed64(v: int) -> int {
    if v >= 0x8000_0000_0000_0000 {
        v - 0x1_0000_0000_0000_0000
    } else {
        v
    }
}

/// The `n` bytes from `at` on, each read as two's complement.
pub open spec fn i8s_at(data: Seq<u8>, at: int, n: nat) -> Seq<i8> {
    Seq::new(n, |i: int| signed8(data[at + i] as int) as i8)
}

/// The `n` signed 16-bit integers from `at` on, in the given byte order.
pub open spec fn i16s_at(data: Seq<u8>, at: int, n: nat, little: bool) -> Seq<i16> {
    Seq::new(n, |i: int| signed16(u16_at(data, at + 2 * i, little)) as i16)
}

/// The `n` signed 32-bit integers from `at` on, in the given byte order.
pub open spec fn i32s_at(data: Seq<u8>, at: int, n: nat, little: bool) -> Seq<i32> {
    Seq::new(n, |i: int| signed32(u32_at(data, at + 4 * i, little)) as i32)
}

/// The `n` signed 64-bit integers from `at` on, in the given byte order.
pub open spec fn i64s_at(data: Seq<u8>, at: int, n: nat, little: bool) -> Seq<i64> {
    Seq::new(n, |i: int| signed64(u64_at(data, at + 8 * i, little)) as i64)
}

/// 128 to the power `n`: the weight of the group of seven bits number `n`.
pub open spec fn group_weight(n: nat) -> int
    decreases n,
{
    if n == 0 {
        1
    } else {
        128 * group_weight((n - 1) as nat)
    }
}

/// The number that the low seven bits of the `n` bytes from `at` on spell,
/// the first byte being the lowest group.
pub open spec fn var_groups(data: Seq<u8>, at: int, n: nat) -> int
    decreases n,
{
    if n == 0 {
        0
    } else {
        var_groups(data, at, (n - 1) as nat) + (data[at + n - 1] as int % 128) * group_weight(
            (n - 1) as nat,
        )
    }
}

/// Whether each of the `n` bytes from `at` on has its top bit set, so that a
/// variable-length integer that starts at `at` goes on after them.
pub open spec fn var_continues(data: Seq<u8>, at: int, n: nat) -> bool {
    forall|i: int| 0 <= i < n ==> #[trigger] data[at + i] >= 128
}

/// A number as the machine truncates it to the width of a `usize`.
pub open spec fn wrapped_usize(v: int) -> int {
    v % (usize::MAX as int + 1)
}

/// What zig-zag decoding makes of a signed number: half of it where it is
/// even, and the complement of that half where it is odd.
pub open spec fn zigzag(v: int) -> int {
    if v % 2 == 0 {
        v / 2
    } else {
        -(v / 2) - 1
    }
}

/// How many bytes a reader of a variable-length integer examines from `at`
/// on: it stops behind the first byte without the top bit, at the end of the
/// buffer, and after `cap` bytes.
pub open spec fn var_span(data: Seq<u8>, at: int, cap: nat) -> nat
    decreases cap,
{
    if cap == 0 || at >= data.len() {
        0
    } else if data[at] < 128 {
        1
    } else {
        1 + var_span(data, at + 1, (cap - 1) as nat)
    }
}

/// Whether the `n` bytes examined from `at` on end a variable-length integer.
pub open spec fn var_ended(data: Seq<u8>, at: int, n: nat) -> bool {
    n > 0 && at + n <= data.len() && data[at + n - 1] < 128
}

/// What reading a variable-length 32-bit integer at `at` gives: the number
/// and where the next read starts, or the error.
pub open spec fn var_i32_at(data: Seq<u8>, at: int) -> Result<(i32, int), NbtError> {
    let n = var_span(data, at, 5);
    let bits = signed32(var_groups(data, at, n) % 0x1_0000_0000);
    if var_ended(data, at, n) {
        Ok((bits as i32, at + n))
    } else if n < 5 {
        Err(NbtError::CursorOverflow((at + n) as usize, 1, data.len() as usize))
    } else {
        Err(NbtError::VarIntTooBig(wrapped_usize(bits) as usize))
    }
}

/// What reading a variable-length 64-bit integer at `at` gives: the number
/// and where the next read starts, or the error.
pub open spec fn var_i64_at(data: Seq<u8>, at: int) -> Result<(i64, int), NbtError> {
    let n = var_span(data, at, 10);
    let bits = signed64(var_groups(data, at, n) % 0x1_0000_0000_0000_0000);
    if var_ended(data, at, n) {
        Ok((bits as i64, at + n))
    } else if n < 10 {
        Err(NbtError::CursorOverflow((at + n) as usize, 1, data.len() as usize))
    } else {
        Err(NbtError::VarlongTooBig(wrapped_usize(bits) as usize))
    }
}

/// The weights of the groups that a variable-length integer can have.
pub proof fn lemma_group_weights()
    ensures
        group_weight(0) == 1,
        group_weight(1) == 0x80,
        group_weight(2) == 0x4000,
        group_weight(3) == 0x20_0000,
        group_weight(4) == 0x1000_0000,
        group_weight(5) == 0x8_0000_0000,
        group_weight(6) == 0x400_0000_0000,
        group_weight(7) == 0x2_0000_0000_0000,
        group_weight(8) == 0x100_0000_0000_0000,
        group_weight(9) == 0x8000_0000_0000_0000,
        group_weight(10) == 0x40_0000_0000_0000_0000,
{
    reveal_with_fuel(group_weight, 11);
}

/// The groups of `n` bytes spell a number below the weight of the next group.
pub proof fn lemma_var_groups_bound(data: Seq<u8>, at: int, n: nat)
    ensures
        0 <= var_groups(data, at, n) < group_weight(n),
    decreases n,
{
    if n > 0 {
        lemma_var_groups_bound(data, at, (n - 1) as nat);
        let g = data[at + n - 1] as int % 128;
        let w = group_weight((n - 1) as nat);
        assert(0 <= g * w <= 127 * w) by (nonlinear_arith)
            requires
                0 <= g <= 127,
                0 <= w,
        ;
    }
}

/// A reader that has examined `i` bytes, all with the top bit set, goes on as
/// one that starts behind them with that many bytes less to go.
pub proof fn lemma_var_span_step(data: Seq<u8>, at: int, cap: nat, i: nat)
    requires
        0 <= at,
        i <= cap,
        i > 0 ==> at + i <= data.len(),
        var_continues(data, at, i),
    ensures
        var_span(data, at, cap) == i + var_span(data, at + i, (cap - i) as nat),
    decreases i,
{
    if i > 0 {
        assert(data[at + 0] >= 128);
        assert(var_continues(data, at + 1, (i - 1) as nat)) by {
            assert forall|k: int| 0 <= k < i - 1 implies #[trigger] data[at + 1 + k] >= 128 by {
                assert(data[at + (k + 1)] >= 128);
            }
        }
        lemma_var_span_step(data, at + 1, (cap - 1) as nat, (i - 1) as nat);
    }
}

/// Reversing the bytes of a 16-bit number swaps the two byte orders.
pub proof fn lemma_u16_orders_mirror(data: Seq<u8>, other: Seq<u8>, at: int, to: int)
    requires
        0 <= at,
        at + 2 <= data.len(),
        0 <= to,
        to + 2 <= other.len(),
        forall|i: int| 0 <= i < 2 ==> #[trigger] other[to + i] == data[at + 1 - i],
    ensures
        le_u16(other, to) == be_u16(data, at),
{
    assert(other[to + 0] == data[at + 1 - 0]);
    assert(other[to + 1] == data[at + 1 - 1]);
}

/// Reversing the bytes of a 32-bit number swaps the two byte orders.
pub proof fn lemma_u32_orders_mirror(data: Seq<u8>, other: Seq<u8>, at: int, to: int)
    requires
        0 <= at,
        at + 4 <= data.len(),
        0 <= to,
        to + 4 <= other.len(),
        forall|i: int| 0 <= i < 4 ==> #[trigger] other[to + i] == data[at + 3 - i],
    ensures
        le_u32(other, to) == be_u32(data, at),
{
    assert(other[to + 0] == data[at + 3 - 0]);
    assert(other[to + 1] == data[at + 3 - 1]);
    assert(other[to + 2] == data[at + 3 - 2]);
    assert(other[to + 3] == data[at + 3 - 3]);
}

/// Reversing the bytes of a 64-bit number swaps the two byte orders.
pub proof fn lemma_u64_orders_mirror(data: Seq<u8>, other: Seq<u8>, at: int, to: int)
    requires
        0 <= at,
        at + 8 <= data.len(),
        0 <= to,
        to + 8 <= other.len(),
        forall|i: int| 0 <= i < 8 ==> #[trigger] other[to + i] == data[at + 7 - i],
    ensures
        le_u64(other, to) == be_u64(data, at),
{
    assert(other[to + 0] == data[at + 7 - 0]);
    assert(other[to + 1] == data[at + 7 - 1]);
    assert(other[to + 2] == data[at + 7 - 2]);
    assert(other[to + 3] == data[at + 7 - 3]);
    assert(other[to + 4] == data[at + 7 - 4]);
    assert(other[to + 5] == data[at + 7 - 5]);
    assert(other[to + 6] == data[at + 7 - 6]);
    assert(other[to + 7] == data[at + 7 - 7]);
}

} // verus!
