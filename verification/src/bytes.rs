//! Little-endian words and zero-padded decimal numerals.
use vstd::prelude::*;

verus! {

/// The little-endian `u32` in `b[at .. at + 4]`.
pub open spec fn le_u32(b: Seq<u8>, at: int) -> nat {
    (b[at] + 256 * b[at + 1] + 65536 * b[at + 2] + 16777216 * b[at + 3]) as nat
}

/// `u32::from_le_bytes` of `bytes[at .. at + 4]`.
pub fn u32_from_le_bytes(bytes: &[u8], at: usize) -> (r: u32)
    requires
        at + 4 <= bytes@.len(),
    ensures
        r == le_u32(bytes@, at as int),
{
    bytes[at] as u32 + 256 * (bytes[at + 1] as u32) + 65536 * (bytes[at + 2] as u32) + 16777216 * (
    bytes[at + 3] as u32)
}

/// The last `width` decimal digits of `v` as ASCII, most significant first,
/// with leading zeros: the numeral of `v` padded to `width` when `v < 10^width`.
pub open spec fn padded_decimal(v: nat, width: nat) -> Seq<u8>
    decreases width,
{
    if width == 0 {
        seq![]
    } else {
        padded_decimal(v / 10, (width - 1) as nat).push((48 + v % 10) as u8)
    }
}

/// `10^w`.
pub open spec fn pow10(w: nat) -> nat
    decreases w,
{
    if w == 0 {
        1
    } else {
        10 * pow10((w - 1) as nat)
    }
}

/// The number that the ASCII digits `s` write in decimal, most significant
/// first.
pub open spec fn decimal_value(s: Seq<u8>) -> nat
    decreases s.len(),
{
    if s.len() == 0 {
        0
    } else {
        10 * decimal_value(s.drop_last()) + (s.last() - 48) as nat
    }
}

/// Every byte of `s` is an ASCII digit.
pub open spec fn all_digits(s: Seq<u8>) -> bool {
    forall|i: int| 0 <= i < s.len() ==> 48 <= #[trigger] s[i] <= 57
}

/// A number below `10^width`, written with `padded_decimal`, is `width` ASCII
/// digits that read back as the number.
pub proof fn lemma_padded_decimal_reads_back(v: nat, width: nat)
    requires
        v < pow10(width),
    ensures
        padded_decimal(v, width).len() == width,
        all_digits(padded_decimal(v, width)),
        decimal_value(padded_decimal(v, width)) == v,
    decreases width,
{
    if width > 0 {
        let p = pow10((width - 1) as nat);
        assert(v / 10 < p) by (nonlinear_arith)
            requires
                v < 10 * p,
        ;
        lemma_padded_decimal_reads_back(v / 10, (width - 1) as nat);
        let s = padded_decimal(v, width);
        let t = padded_decimal(v / 10, (width - 1) as nat);
        assert(s.drop_last() =~= t);
        assert(v == 10 * (v / 10) + v % 10);
        assert forall|i: int| 0 <= i < s.len() implies 48 <= #[trigger] s[i] <= 57 by {
            if i < t.len() {
                assert(s[i] == t[i]);
            }
        }
    }
}

/// Writes `padded_decimal(v, width)` at `buf[start .. start + width]`.
pub fn write_padded_decimal(buf: &mut [u8], start: usize, width: usize, v: u64)
    requires
        start + width <= old(buf)@.len(),
    ensures
        final(buf)@.len() == old(buf)@.len(),
        final(buf)@.subrange(start as int, start + width) == padded_decimal(v as nat, width as nat),
        forall|k: int|
            0 <= k < old(buf)@.len() && (k < start || k >= start + width) ==> #[trigger] final(buf)@[k] == old(
                buf,
            )@[k],
{
    let ghost b0 = buf@;
    let n = buf.len();
    let end: usize = start + width;
    let mut rest = v;
    let mut i: usize = 0;
    while i < width
        invariant
            i <= width,
            end == start + width,
            start + width <= buf@.len(),
            buf@.len() == b0.len(),
            padded_decimal(v as nat, width as nat) == padded_decimal(rest as nat, (width - i) as nat)
                + buf@.subrange(start + width - i, start + width),
            forall|k: int| 0 <= k < b0.len() && (k < start || k >= start + width) ==> #[trigger] buf@[k] == b0[k],
        decreases width - i,
    {
        let ghost before = buf@;
        let d = (rest % 10) as u8;
        buf[end - 1 - i] = 48 + d;
        assert(padded_decimal(rest as nat, (width - i) as nat) == padded_decimal(
            (rest / 10) as nat,
            (width - i - 1) as nat,
        ).push((48 + rest % 10) as u8));
        assert(buf@.subrange(start + width - (i + 1), start + width as int) =~= seq![(48 + rest % 10) as u8]
            + before.subrange(start + width - i, start + width as int));
        rest = rest / 10;
        i = i + 1;
    }
    assert(buf@.subrange(start as int, start + width as int) =~= buf@.subrange(
        start + width - i,
        start + width as int,
    ));
}

} // verus!
