//! Little-endian integers as byte sequences.
//!
//! Every multi-byte field of the value codec and of the page format is stored
//! least significant byte first. The model is positional: `le_bytes` writes a
//! number in base 256, `le_value` reads one back.

use vstd::prelude::*;

verus! {

/// 256 to the power `width`: the number of values that `width` bytes can hold.
pub open spec fn radix(width: nat) -> nat
    decreases width,
{
    if width == 0 {
        1
    } else {
        256 * radix((width - 1) as nat)
    }
}

/// The `width` low-order base-256 digits of `value`, least significant first.
pub open spec fn le_bytes(value: nat, width: nat) -> Seq<u8>
    decreases width,
{
    if width == 0 {
        Seq::empty()
    } else {
        seq![(value % 256) as u8] + le_bytes(value / 256, (width - 1) as nat)
    }
}

/// The number whose base-256 digits, least significant first, are `bytes`.
pub open spec fn le_value(bytes: Seq<u8>) -> nat
    decreases bytes.len(),
{
    if bytes.len() == 0 {
        0
    } else {
        bytes[0] as nat + 256 * le_value(bytes.drop_first())
    }
}

/// `base` with the bytes from `pos` on replaced by `part`.
pub open spec fn overwrite(base: Seq<u8>, pos: int, part: Seq<u8>) -> Seq<u8> {
    Seq::new(
        base.len(),
        |i: int|
            if pos <= i < pos + part.len() {
                part[i - pos]
            } else {
                base[i]
            },
    )
}

/// The two's complement bit pattern of a signed 32-bit integer, as a number.
pub open spec fn i32_bits(x: i32) -> nat {
    if x >= 0 {
        x as nat
    } else {
        (x + 0x1_0000_0000) as nat
    }
}

/// The signed 32-bit integer with the two's complement bit pattern `bits`.
pub open spec fn i32_of_bits(bits: nat) -> i32 {
    if bits < 0x8000_0000 {
        bits as i32
    } else {
        (bits - 0x1_0000_0000) as i32
    }
}

/// The widths in use: one, two, four and eight bytes.
pub proof fn lemma_radix_values()
    ensures
        radix(0) == 1,
        radix(1) == 0x100,
        radix(2) == 0x1_0000,
        radix(4) == 0x1_0000_0000,
        radix(7) == 0x100_0000_0000_0000,
        radix(8) == 0x1_0000_0000_0000_0000,
{
    reveal_with_fuel(radix, 9);
}

/// More bytes hold more values.
pub proof fn lemma_radix_monotonic(narrow: nat, wide: nat)
    requires
        narrow <= wide,
    ensures
        1 <= radix(narrow) <= radix(wide),
    decreases wide,
{
    if wide == 0 {
    } else if narrow == wide {
        lemma_radix_monotonic((narrow - 1) as nat, (wide - 1) as nat);
    } else {
        lemma_radix_monotonic(narrow, (wide - 1) as nat);
    }
}

/// `le_bytes` yields exactly `width` bytes.
pub proof fn lemma_le_bytes_len(value: nat, width: nat)
    ensures
        le_bytes(value, width).len() == width,
    decreases width,
{
    if width > 0 {
        lemma_le_bytes_len(value / 256, (width - 1) as nat);
    }
}

/// What `n` bytes spell is below `radix(n)`.
pub proof fn lemma_le_value_bound(bytes: Seq<u8>)
    ensures
        le_value(bytes) < radix(bytes.len()),
    decreases bytes.len(),
{
    if bytes.len() > 0 {
        lemma_le_value_bound(bytes.drop_first());
    }
}

/// Reading back what was written gives the number, if it fits the width.
pub proof fn lemma_le_value_of_bytes(value: nat, width: nat)
    requires
        value < radix(width),
    ensures
        le_value(le_bytes(value, width)) == value,
    decreases width,
{
    if width > 0 {
        let rest = le_bytes(value / 256, (width - 1) as nat);
        lemma_le_bytes_len(value / 256, (width - 1) as nat);
        lemma_le_value_of_bytes(value / 256, (width - 1) as nat);
        assert(le_bytes(value, width).drop_first() =~= rest);
    }
}

/// Writing what was read gives the bytes.
pub proof fn lemma_le_bytes_of_value(bytes: Seq<u8>)
    ensures
        le_bytes(le_value(bytes), bytes.len()) == bytes,
    decreases bytes.len(),
{
    if bytes.len() > 0 {
        lemma_le_bytes_of_value(bytes.drop_first());
        let value = le_value(bytes);
        assert(value % 256 == bytes[0] as nat);
        assert(value / 256 == le_value(bytes.drop_first()));
        assert(le_bytes(value, bytes.len()) =~= seq![bytes[0]] + bytes.drop_first());
    }
}

/// The bit pattern of a signed integer fits four bytes and gives it back.
pub proof fn lemma_i32_bits_round_trip(x: i32)
    ensures
        i32_bits(x) < radix(4),
        i32_of_bits(i32_bits(x)) == x,
{
    lemma_radix_values();
}

/// Every four-byte pattern is the bit pattern of one signed integer.
pub proof fn lemma_i32_of_bits_round_trip(bits: nat)
    requires
        bits < radix(4),
    ensures
        i32_bits(i32_of_bits(bits)) == bits,
{
    lemma_radix_values();
}

/// Appends the `width` low-order bytes of `value` to `out`, least significant
/// first.
pub fn append_le(out: &mut Vec<u8>, value: u64, width: usize)
    requires
        width <= 8,
    ensures
        final(out)@ == old(out)@ + le_bytes(value as nat, width as nat),
{
    let ghost start = out@;
    let mut rest: u64 = value;
    let mut done: usize = 0;
    assert(out@ + le_bytes(rest as nat, (width - done) as nat) =~= start + le_bytes(
        value as nat,
        width as nat,
    ));
    while done < width
        invariant
            done <= width,
            out@ + le_bytes(rest as nat, (width - done) as nat) == start + le_bytes(
                value as nat,
                width as nat,
            ),
        decreases width - done,
    {
        let ghost before = out@;
        let digit: u8 = (rest % 256) as u8;
        out.push(digit);
        assert(out@ + le_bytes((rest / 256) as nat, (width - done - 1) as nat) =~= before
            + le_bytes(rest as nat, (width - done) as nat));
        rest = rest / 256;
        done = done + 1;
    }
    assert(le_bytes(rest as nat, 0) =~= Seq::<u8>::empty());
    assert(out@ + Seq::<u8>::empty() =~= out@);
}

/// Stores the `width` low-order bytes of `value` in `buf` from `pos` on, least
/// significant first, and leaves the other bytes as they are.
pub fn store_le(buf: &mut [u8], pos: usize, value: u64, width: usize)
    requires
        width <= 8,
        pos + width <= old(buf)@.len(),
    ensures
        final(buf)@ == overwrite(old(buf)@, pos as int, le_bytes(value as nat, width as nat)),
{
    let ghost start = buf@;
    let ghost digits = le_bytes(value as nat, width as nat);
    let total: usize = buf.len();
    let mut rest: u64 = value;
    let mut done: usize = 0;
    proof {
        lemma_le_bytes_len(value as nat, width as nat);
        assert(le_bytes(rest as nat, (width - done) as nat) =~= digits.subrange(
            done as int,
            width as int,
        ));
    }
    while done < width
        invariant
            done <= width <= 8,
            pos + width <= start.len() == total,
            digits.len() == width,
            buf@.len() == start.len(),
            le_bytes(rest as nat, (width - done) as nat) == digits.subrange(
                done as int,
                width as int,
            ),
            forall|i: int|
                0 <= i < start.len() ==> buf@[i] == if pos <= i < pos + done {
                    digits[i - pos]
                } else {
                    start[i]
                },
        decreases width - done,
    {
        let digit: u8 = (rest % 256) as u8;
        proof {
            let tail = le_bytes(rest as nat, (width - done) as nat);
            assert(tail[0] == digit);
            assert(digits[done as int] == digit);
            assert(le_bytes((rest / 256) as nat, (width - done - 1) as nat) =~= tail.drop_first());
            assert(tail.drop_first() =~= digits.subrange(done + 1, width as int));
        }
        buf[pos + done] = digit;
        rest = rest / 256;
        done = done + 1;
    }
    assert(buf@ =~= overwrite(start, pos as int, digits));
}

/// Reads the `width` bytes of `bytes` from `pos` on as one number, least
/// significant byte first.
pub fn load_le(bytes: &[u8], pos: usize, width: usize) -> (value: u64)
    requires
        width <= 8,
        pos + width <= bytes@.len(),
    ensures
        value == le_value(bytes@.subrange(pos as int, pos + width)),
        value < radix(width as nat),
{
    let total: usize = bytes.len();
    let mut value: u64 = 0;
    let mut left: usize = width;
    proof {
        lemma_radix_values();
    }
    while left > 0
        invariant
            left <= width <= 8,
            pos + width <= bytes@.len() == total,
            value == le_value(bytes@.subrange(pos + left, pos + width)),
            value < radix((width - left) as nat),
        decreases left,
    {
        left = left - 1;
        let digit: u8 = bytes[pos + left];
        proof {
            let shorter = bytes@.subrange(pos + left + 1, pos + width);
            let longer = bytes@.subrange(pos + left, pos + width);
            assert(longer.drop_first() =~= shorter);
            lemma_radix_values();
            lemma_radix_monotonic((width - left - 1) as nat, 7);
            lemma_le_value_bound(longer);
        }
        value = 256 * value + digit as u64;
    }
    value
}

/// Copies `src` into `buf` from `pos` on and leaves the other bytes as they
/// are.
pub fn store_bytes(buf: &mut [u8], pos: usize, src: &[u8])
    requires
        pos + src@.len() <= old(buf)@.len(),
    ensures
        final(buf)@ == overwrite(old(buf)@, pos as int, src@),
{
    let ghost start = buf@;
    let total: usize = buf.len();
    let count: usize = src.len();
    let mut done: usize = 0;
    while done < count
        invariant
            done <= count,
            count == src@.len(),
            pos + count <= start.len() == total,
            buf@.len() == start.len(),
            forall|i: int|
                0 <= i < start.len() ==> buf@[i] == if pos <= i < pos + done {
                    src@[i - pos]
                } else {
                    start[i]
                },
        decreases count - done,
    {
        buf[pos + done] = src[done];
        done = done + 1;
    }
    assert(buf@ =~= overwrite(start, pos as int, src@));
}

} // verus!
