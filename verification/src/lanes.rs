//! Sixteen-byte registers and the lane-wise operations on them, in portable code.

use vstd::arithmetic::power2::{
    lemma2_to64, lemma_pow2_pos, lemma_pow2_strictly_increases, lemma_pow2_unfold,
    pow2,
};
use vstd::prelude::*;

verus! {

/// A 128-bit register as sixteen byte lanes.
pub type Register = [u8; 16];

/// An element width in bytes: one, two, four or eight.
pub open spec fn is_width(w: int) -> bool {
    w == 1 || w == 2 || w == 4 || w == 8
}

/// Byte `c` of a register belongs to an odd-numbered element when elements are `w` bytes wide;
/// that is, the bit of weight `w` is set in `c`.
pub open spec fn odd_element(c: int, w: int) -> bool {
    if w == 1 {
        c % 2 == 1
    } else if w == 2 {
        (c / 2) % 2 == 1
    } else if w == 4 {
        (c / 4) % 2 == 1
    } else {
        (c / 8) % 2 == 1
    }
}

/// Tests the bit of weight `w` in `c`.
pub fn in_odd_element(c: usize, w: usize) -> (odd: bool)
    requires
        is_width(w as int),
    ensures
        odd == odd_element(c as int, w as int),
{
    if w == 1 {
        c % 2 == 1
    } else if w == 2 {
        (c / 2) % 2 == 1
    } else if w == 4 {
        (c / 4) % 2 == 1
    } else {
        (c / 8) % 2 == 1
    }
}

/// Interleaves the even-numbered elements of two registers.
pub fn transpose_even(a: &Register, b: &Register, w: usize) -> (out: Register)
    requires
        is_width(w as int),
    ensures
        forall|c: int|
            0 <= c < 16 ==> #[trigger] out@[c] == (if odd_element(c, w as int) {
                b@[c - w]
            } else {
                a@[c]
            }),
{
    let mut out: Register = [0u8; 16];
    let mut c: usize = 0;
    while c < 16
        invariant
            c <= 16,
            is_width(w as int),
            forall|i: int|
                0 <= i < c ==> #[trigger] out@[i] == (if odd_element(i, w as int) {
                    b@[i - w]
                } else {
                    a@[i]
                }),
        decreases 16 - c,
    {
        out[c] = if in_odd_element(c, w) {
            b[c - w]
        } else {
            a[c]
        };
        c = c + 1;
    }
    out
}

/// Interleaves the odd-numbered elements of two registers.
pub fn transpose_odd(a: &Register, b: &Register, w: usize) -> (out: Register)
    requires
        is_width(w as int),
    ensures
        forall|c: int|
            0 <= c < 16 ==> #[trigger] out@[c] == (if odd_element(c, w as int) {
                b@[c]
            } else {
                a@[c + w]
            }),
{
    let mut out: Register = [0u8; 16];
    let mut c: usize = 0;
    while c < 16
        invariant
            c <= 16,
            is_width(w as int),
            forall|i: int|
                0 <= i < c ==> #[trigger] out@[i] == (if odd_element(i, w as int) {
                    b@[i]
                } else {
                    a@[i + w]
                }),
        decreases 16 - c,
    {
        out[c] = if in_odd_element(c, w) {
            b[c]
        } else {
            a[c + w]
        };
        c = c + 1;
    }
    out
}

/// The same byte in every lane.
pub fn splat(byte: u8) -> (out: Register)
    ensures
        forall|i: int| 0 <= i < 16 ==> #[trigger] out@[i] == byte,
{
    [byte; 16]
}

/// Sixteen bytes of `data` from position `at`.
pub fn load(data: &[u8], at: usize) -> (out: Register)
    requires
        at + 16 <= data.len(),
    ensures
        forall|i: int| 0 <= i < 16 ==> #[trigger] out@[i] == data@[at + i],
{
    let mut out: Register = [0u8; 16];
    let mut k: usize = 0;
    while k < 16
        invariant
            k <= 16,
            at + 16 <= data.len(),
            forall|i: int| 0 <= i < k ==> #[trigger] out@[i] == data@[at + i],
        decreases 16 - k,
    {
        out[k] = data[at + k];
        k = k + 1;
    }
    out
}

/// What is left of a byte after taking away another, modulo 256.
pub open spec fn byte_minus(a: u8, b: u8) -> int {
    (a - b) % 256
}

/// All ones where the condition holds, all zeros elsewhere.
pub open spec fn mask(holds: bool) -> u8 {
    if holds {
        0xff
    } else {
        0
    }
}

/// Lane-wise difference modulo 256.
pub fn subtract(a: &Register, b: &Register) -> (out: Register)
    ensures
        forall|i: int| 0 <= i < 16 ==> #[trigger] out@[i] == byte_minus(a@[i], b@[i]),
{
    let mut out: Register = [0u8; 16];
    let mut k: usize = 0;
    while k < 16
        invariant
            k <= 16,
            forall|i: int| 0 <= i < k ==> #[trigger] out@[i] == byte_minus(a@[i], b@[i]),
        decreases 16 - k,
    {
        out[k] = a[k].wrapping_sub(b[k]);
        k = k + 1;
    }
    out
}

/// Lane-wise conjunction of bits.
pub fn both(a: &Register, b: &Register) -> (out: Register)
    ensures
        forall|i: int| 0 <= i < 16 ==> #[trigger] out@[i] == a@[i] & b@[i],
{
    let mut out: Register = [0u8; 16];
    let mut k: usize = 0;
    while k < 16
        invariant
            k <= 16,
            forall|i: int| 0 <= i < k ==> #[trigger] out@[i] == a@[i] & b@[i],
        decreases 16 - k,
    {
        out[k] = a[k] & b[k];
        k = k + 1;
    }
    out
}

/// All ones in the lanes where the registers agree.
pub fn equal_mask(a: &Register, b: &Register) -> (out: Register)
    ensures
        forall|i: int| 0 <= i < 16 ==> #[trigger] out@[i] == mask(a@[i] == b@[i]),
{
    let mut out: Register = [0u8; 16];
    let mut k: usize = 0;
    while k < 16
        invariant
            k <= 16,
            forall|i: int| 0 <= i < k ==> #[trigger] out@[i] == mask(a@[i] == b@[i]),
        decreases 16 - k,
    {
        out[k] = if a[k] == b[k] {
            0xff
        } else {
            0
        };
        k = k + 1;
    }
    out
}

/// All ones in the lanes where the first register is no greater than the second.
pub fn at_most_mask(a: &Register, b: &Register) -> (out: Register)
    ensures
        forall|i: int| 0 <= i < 16 ==> #[trigger] out@[i] == mask(a@[i] <= b@[i]),
{
    let mut out: Register = [0u8; 16];
    let mut k: usize = 0;
    while k < 16
        invariant
            k <= 16,
            forall|i: int| 0 <= i < k ==> #[trigger] out@[i] == mask(a@[i] <= b@[i]),
        decreases 16 - k,
    {
        out[k] = if a[k] <= b[k] {
            0xff
        } else {
            0
        };
        k = k + 1;
    }
    out
}

/// Lane-wise minimum.
pub fn smaller(a: &Register, b: &Register) -> (out: Register)
    ensures
        forall|i: int| 0 <= i < 16 ==> #[trigger] out@[i] == (if a@[i] <= b@[i] { a@[i] } else { b@[i] }),
{
    let mut out: Register = [0u8; 16];
    let mut k: usize = 0;
    while k < 16
        invariant
            k <= 16,
            forall|i: int| 0 <= i < k ==> #[trigger] out@[i] == (if a@[i] <= b@[i] { a@[i] } else { b@[i] }),
        decreases 16 - k,
    {
        out[k] = if a[k] <= b[k] {
            a[k]
        } else {
            b[k]
        };
        k = k + 1;
    }
    out
}

/// The smallest lane.
pub fn least_lane(a: &Register) -> (least: u8)
    ensures
        forall|i: int| 0 <= i < 16 ==> least <= #[trigger] a@[i],
        exists|i: int| 0 <= i < 16 && least == #[trigger] a@[i],
{
    let mut least: u8 = a[0];
    let mut k: usize = 1;
    assert(least == a@[0]);
    while k < 16
        invariant
            1 <= k <= 16,
            forall|i: int| 0 <= i < k ==> least <= #[trigger] a@[i],
            exists|i: int| 0 <= i < k && least == #[trigger] a@[i],
        decreases 16 - k,
    {
        if a[k] < least {
            least = a[k];
            assert(least == a@[k as int]);
        }
        k = k + 1;
    }
    least
}

/// The top bits of the first `k` lanes as a number, lane zero lowest.
pub open spec fn top_bits_of(a: Seq<u8>, k: int) -> int
    decreases k,
{
    if k <= 0 {
        0
    } else {
        top_bits_of(a, k - 1) + (if a[k - 1] >= 0x80 {
            pow2((k - 1) as nat) as int
        } else {
            0
        })
    }
}

/// The number is all ones exactly when every lane has its top bit set.
pub proof fn lemma_top_bits(a: Seq<u8>, k: int)
    requires
        0 <= k,
    ensures
        0 <= top_bits_of(a, k) < pow2(k as nat),
        top_bits_of(a, k) == pow2(k as nat) - 1 <==> forall|i: int|
            0 <= i < k ==> #[trigger] a[i] >= 0x80,
    decreases k,
{
    lemma2_to64();
    if k > 0 {
        lemma_top_bits(a, k - 1);
        lemma_pow2_unfold(k as nat);
        lemma_pow2_pos((k - 1) as nat);
        assert(pow2(k as nat) == 2 * pow2((k - 1) as nat));
        if top_bits_of(a, k) == pow2(k as nat) - 1 {
            assert(a[k - 1] >= 0x80);
        }
    }
}

/// Gathers the top bit of every lane, lane zero lowest.
pub fn top_bits(a: &Register) -> (bits: u32)
    ensures
        bits == top_bits_of(a@, 16),
{
    let mut bits: u32 = 0;
    let mut weight: u32 = 1;
    let mut k: usize = 0;
    proof {
        lemma2_to64();
    }
    while k < 16
        invariant
            k <= 16,
            bits == top_bits_of(a@, k as int),
            weight == pow2(k as nat),
        decreases 16 - k,
    {
        proof {
            lemma_top_bits(a@, k as int);
            lemma2_to64();
            lemma_pow2_strictly_increases(k as nat, 16);
            lemma_pow2_unfold((k + 1) as nat);
        }
        if a[k] >= 0x80 {
            bits = bits + weight;
        }
        weight = weight * 2;
        k = k + 1;
    }
    bits
}

/// Multiplies each 16-bit accumulator by ten and adds the byte lanes from `at` on, modulo 2^16.
pub fn accumulate16<const N: usize>(acc: &mut [u16; N], digits: &Register, at: usize)
    requires
        at + N <= 16,
    ensures
        forall|i: int|
            0 <= i < N ==> #[trigger] final(acc)@[i] == (old(acc)@[i] * 10 + digits@[at + i])
                % 0x1_0000,
{
    let mut k: usize = 0;
    while k < N
        invariant
            k <= N,
            at + N <= 16,
            forall|i: int|
                0 <= i < k ==> #[trigger] acc@[i] == (old(acc)@[i] * 10 + digits@[at + i])
                    % 0x1_0000,
            forall|i: int| k <= i < N ==> #[trigger] acc@[i] == old(acc)@[i],
        decreases N - k,
    {
        let next: u16 = acc[k].wrapping_mul(10).wrapping_add(digits[at + k] as u16);
        acc[k] = next;
        k = k + 1;
    }
}

/// Multiplies each 32-bit accumulator by ten and adds the byte lanes from `at` on, modulo 2^32.
pub fn accumulate32<const N: usize>(acc: &mut [u32; N], digits: &Register, at: usize)
    requires
        at + N <= 16,
    ensures
        forall|i: int|
            0 <= i < N ==> #[trigger] final(acc)@[i] == (old(acc)@[i] * 10 + digits@[at + i])
                % 0x1_0000_0000,
{
    let mut k: usize = 0;
    while k < N
        invariant
            k <= N,
            at + N <= 16,
            forall|i: int|
                0 <= i < k ==> #[trigger] acc@[i] == (old(acc)@[i] * 10 + digits@[at + i])
                    % 0x1_0000_0000,
            forall|i: int| k <= i < N ==> #[trigger] acc@[i] == old(acc)@[i],
        decreases N - k,
    {
        let next: u32 = acc[k].wrapping_mul(10).wrapping_add(digits[at + k] as u32);
        acc[k] = next;
        k = k + 1;
    }
}

/// The element of a half that byte `c` of the interleave of two halves is taken from, as a byte
/// offset in the half.
pub open spec fn half_offset(c: int, w: int) -> int {
    if w == 1 {
        c / 2
    } else if w == 2 {
        (c / 4) * 2 + c % 2
    } else if w == 4 {
        (c / 8) * 4 + c % 4
    } else {
        c % 8
    }
}

fn offset_in_half(c: usize, w: usize) -> (offset: usize)
    requires
        is_width(w as int),
        c < 16,
    ensures
        offset == half_offset(c as int, w as int),
        offset < 8,
{
    if w == 1 {
        c / 2
    } else if w == 2 {
        (c / 4) * 2 + c % 2
    } else if w == 4 {
        (c / 8) * 4 + c % 4
    } else {
        c % 8
    }
}

/// Interleaves the elements of the halves of two registers that begin at byte `half`.
pub fn unpack(a: &Register, b: &Register, w: usize, half: usize) -> (out: Register)
    requires
        is_width(w as int),
        half == 0 || half == 8,
    ensures
        forall|c: int|
            0 <= c < 16 ==> #[trigger] out@[c] == (if odd_element(c, w as int) {
                b@[half + half_offset(c, w as int)]
            } else {
                a@[half + half_offset(c, w as int)]
            }),
{
    let mut out: Register = [0u8; 16];
    let mut c: usize = 0;
    while c < 16
        invariant
            c <= 16,
            is_width(w as int),
            half == 0 || half == 8,
            forall|i: int|
                0 <= i < c ==> #[trigger] out@[i] == (if odd_element(i, w as int) {
                    b@[half + half_offset(i, w as int)]
                } else {
                    a@[half + half_offset(i, w as int)]
                }),
        decreases 16 - c,
    {
        let from: usize = half + offset_in_half(c, w);
        out[c] = if in_odd_element(c, w) {
            b[from]
        } else {
            a[from]
        };
        c = c + 1;
    }
    out
}

/// Adding or taking away a weight changes the bit of that weight alone.
pub proof fn lemma_flip_bit(x: int, w: int, u: int)
    requires
        0 <= x < 16,
        is_width(w),
        is_width(u),
    ensures
        !odd_element(x, w) ==> x + w < 16 && odd_element(x + w, u) == (u == w || odd_element(x, u)),
        odd_element(x, w) ==> 0 <= x - w && odd_element(x - w, u) == (u != w && odd_element(x, u)),
{
    if w == 1 {
    } else if w == 2 {
    } else if w == 4 {
    } else {
    }
}

/// A number below sixteen is known by its four bits.
pub proof fn lemma_bits_decide(x: int, y: int)
    requires
        0 <= x < 16,
        0 <= y < 16,
        odd_element(x, 1) == odd_element(y, 1),
        odd_element(x, 2) == odd_element(y, 2),
        odd_element(x, 4) == odd_element(y, 4),
        odd_element(x, 8) == odd_element(y, 8),
    ensures
        x == y,
{
}

/// Elements are one, two, four or eight bytes wide, and byte `c` stands in element `c / w`.
pub proof fn law_elements(c: int, w: int)
    ensures
        is_width(w) <==> w == 1 || w == 2 || w == 4 || w == 8,
        w == 1 || w == 2 || w == 4 || w == 8 ==> (odd_element(c, w) <==> (c / w) % 2 == 1),
{
}

/// Interleaving halves takes their elements in turn: byte `k` of element `e` of a half goes to byte
/// `k` of element `2 * e` or `2 * e + 1`.
pub proof fn law_halves_interleave(e: int, k: int, w: int)
    requires
        w == 1 || w == 2 || w == 4 || w == 8,
        0 <= k < w,
        0 <= e,
        e * w + k < 8,
    ensures
        half_offset(2 * e * w + k, w) == e * w + k,
        half_offset((2 * e + 1) * w + k, w) == e * w + k,
{
    if w == 1 {
    } else if w == 2 {
    } else if w == 4 {
    } else {
    }
}

/// Taking a byte away and adding it again gives the byte back, modulo 256.
pub proof fn law_byte_minus(a: u8, b: u8)
    ensures
        0 <= byte_minus(a, b) < 256,
        byte_minus(a, b) + b == a || byte_minus(a, b) + b == a + 256,
{
}

/// A mask has all bits of a lane or none.
pub proof fn law_masks_are_full()
    ensures
        mask(true) == 255,
        mask(false) == 0,
{
}

/// Each lane adds its own power of two when its top bit is set.
pub proof fn law_top_bits_gathered(a: Seq<u8>, k: int)
    requires
        0 <= k,
    ensures
        top_bits_of(a, 0) == 0,
        a[k] < 128 ==> top_bits_of(a, k + 1) == top_bits_of(a, k),
        a[k] >= 128 ==> top_bits_of(a, k + 1) == top_bits_of(a, k) + pow2(k as nat),
{
}

} // verus!
