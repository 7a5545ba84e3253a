//! The weak rolling checksum: two 32-bit sums over a window of bytes.

use vstd::arithmetic::div_mod::*;
use vstd::arithmetic::mul::*;
use vstd::prelude::*;

verus! {

/// Sum of the first `k` bytes of `s`.
pub open spec fn sum_prefix(s: Seq<u8>, k: nat) -> nat
    decreases k,
{
    if k == 0 {
        0
    } else {
        sum_prefix(s, (k - 1) as nat) + s[k - 1] as nat
    }
}

/// Sum of the first `k` bytes of `s`, the byte at index `i` counted
/// `s.len() - i` times.
pub open spec fn weighted_prefix(s: Seq<u8>, k: nat) -> nat
    decreases k,
{
    if k == 0 {
        0
    } else {
        weighted_prefix(s, (k - 1) as nat) + ((s.len() - (k - 1)) * s[k - 1]) as nat
    }
}

/// Sum of all bytes of `s`.
pub open spec fn byte_sum(s: Seq<u8>) -> nat {
    sum_prefix(s, s.len())
}

/// Sum of all bytes of `s`, each weighted by its distance from the end of `s`:
/// the first byte counts `s.len()` times, the last one once.
pub open spec fn weighted_sum(s: Seq<u8>) -> nat {
    weighted_prefix(s, s.len())
}

/// The 32-bit value that indexes a window: the low half of `b` above the low
/// half of `a`.
pub open spec fn combine(a: u32, b: u32) -> u32 {
    ((b % 0x1_0000) * 0x1_0000 + a % 0x1_0000) as u32
}

/// The weak checksum of a window of bytes.
pub open spec fn weak_checksum(s: Seq<u8>) -> u32 {
    combine(Rolling::of(s).a, Rolling::of(s).b)
}

/// Accumulator of the weak checksum over a window of `len` bytes.
#[derive(Clone, Copy, Debug)]
pub struct Rolling {
    /// Sum of the window's bytes, modulo 2^32.
    pub a: u32,
    /// Weighted sum of the window's bytes, modulo 2^32.
    pub b: u32,
    /// Number of bytes in the window.
    pub len: usize,
}

impl Rolling {
    /// The accumulator of the window `s`.
    pub open spec fn of(s: Seq<u8>) -> Rolling {
        Rolling {
            a: (byte_sum(s) % 0x1_0000_0000) as u32,
            b: (weighted_sum(s) % 0x1_0000_0000) as u32,
            len: s.len() as usize,
        }
    }

    /// The accumulator after the window moved one byte to the right, dropping
    /// `prev` at its start and taking `next` at its end.
    pub open spec fn rolled(self, prev: u8, next: u8) -> Rolling {
        let a = ((self.a - prev + next) % 0x1_0000_0000) as u32;
        Rolling { a, b: ((self.b - self.len * prev + a) % 0x1_0000_0000) as u32, len: self.len }
    }

    /// The accumulator of the empty window.
    pub fn new() -> (r: Rolling)
        ensures
            r == Rolling::of(Seq::empty()),
            r.a == 0 && r.b == 0 && r.len == 0,
    {
        Rolling { a: 0, b: 0, len: 0 }
    }

    /// Computes both sums over `buf` from scratch.
    pub fn from_slice(buf: &[u8]) -> (r: Rolling)
        ensures
            r == Rolling::of(buf@),
    {
        let n: usize = buf.len();
        let mut a: u32 = 0;
        let mut b: u32 = 0;
        let mut i: usize = 0;
        while i < n
            invariant
                n == buf@.len(),
                i <= n,
                a == sum_prefix(buf@, i as nat) % 0x1_0000_0000,
                b == weighted_prefix(buf@, i as nat) % 0x1_0000_0000,
            decreases n - i,
        {
            let v: u32 = buf[i] as u32;
            let weight: u32 = (((n - i) as u64) % 0x1_0000_0000) as u32;
            proof {
                lemma_extended_sums(buf@, i as nat, a, b);
            }
            a = a.wrapping_add(v);
            b = b.wrapping_add(weight.wrapping_mul(v));
            i = i + 1;
        }
        Rolling { a, b, len: n }
    }

    /// Moves the window one byte to the right: `prev` leaves at its start,
    /// `next` enters at its end. The window keeps its length.
    pub fn roll(&mut self, prev: u8, next: u8)
        ensures
            *final(self) == old(self).rolled(prev, next),
    {
        let len: u32 = ((self.len as u64) % 0x1_0000_0000) as u32;
        let a: u32 = self.a.wrapping_sub(prev as u32).wrapping_add(next as u32);
        let b: u32 = self.b.wrapping_sub(len.wrapping_mul(prev as u32)).wrapping_add(a);
        proof {
            lemma_rolled_sums(self.a, self.b, self.len as int, prev, next);
        }
        self.a = a;
        self.b = b;
    }

    /// The 32-bit checksum of the window: `b` shifted up by sixteen bits, the
    /// bits that leave the word dropped, over the low sixteen bits of `a`.
    pub fn chksum(&self) -> (sum: u32)
        ensures
            sum == combine(self.a, self.b),
            sum == (self.b << 16) ^ (self.a & 0xffff),
    {
        let a: u32 = self.a;
        let b: u32 = self.b;
        assert(((b & 0xffff_ffff) << 16) ^ (a & 0xffff) == (b << 16) ^ (a & 0xffff))
            by (bit_vector);
        assert((b << 16) ^ (a & 0xffff) == ((b % 0x1_0000) * 0x1_0000 + a % 0x1_0000) as u32)
            by (bit_vector);
        ((b & 0xffff_ffff) << 16) ^ (a & 0xffff)
    }
}

/// Adding to a remainder and to the number it came from gives the same
/// remainder.
proof fn lemma_mod_shift(x: int, d: int, m: int)
    requires
        m > 0,
    ensures
        (x % m + d) % m == (x + d) % m,
{
    lemma_add_mod_noop(x, d, m);
    lemma_mod_twice(x, m);
    lemma_add_mod_noop(x % m, d, m);
}

/// Wrapping 32-bit arithmetic computes the sums of a prefix that grows by
/// one byte modulo 2^32.
proof fn lemma_extended_sums(s: Seq<u8>, i: nat, a: u32, b: u32)
    requires
        i < s.len(),
        a == sum_prefix(s, i) % 0x1_0000_0000,
        b == weighted_prefix(s, i) % 0x1_0000_0000,
    ensures
        ({
            let weight = ((s.len() - i) % 0x1_0000_0000) as u32;
            &&& a.wrapping_add(s[i as int] as u32) == sum_prefix(s, i + 1) % 0x1_0000_0000
            &&& b.wrapping_add(weight.wrapping_mul(s[i as int] as u32)) == weighted_prefix(
                s,
                i + 1,
            ) % 0x1_0000_0000
        }),
{
    let m: int = 0x1_0000_0000;
    let v: int = s[i as int] as int;
    let d: int = s.len() - i;
    let sum: int = sum_prefix(s, i) as int;
    let weighted: int = weighted_prefix(s, i) as int;
    let weight = (d % m) as u32;
    assert(d * v >= 0) by {
        lemma_mul_nonnegative(d, v);
    }
    assert(sum_prefix(s, i + 1) == sum + v);
    assert(weighted_prefix(s, i + 1) == weighted + d * v);
    let a1 = a.wrapping_add(v as u32);
    assert(a1 == (a + v) % m);
    assert(a1 == (sum + v) % m) by {
        lemma_mod_shift(sum, v, m);
    }
    let t = weight.wrapping_mul(v as u32);
    assert(t == (d * v) % m) by {
        lemma_mul_nonnegative(d % m, v);
        lemma_mul_mod_noop_left(d, v, m);
    }
    let b1 = b.wrapping_add(t);
    assert(b1 == (b + t) % m);
    assert(b1 == (weighted + d * v) % m) by {
        lemma_mod_shift(weighted, t as int, m);
        lemma_mod_shift(d * v, weighted, m);
    }
}

/// Wrapping 32-bit arithmetic computes the sums of a moved window modulo 2^32.
proof fn lemma_rolled_sums(a0: u32, b0: u32, n: int, prev: u8, next: u8)
    requires
        0 <= n,
    ensures
        ({
            let len = (n % 0x1_0000_0000) as u32;
            let a = a0.wrapping_sub(prev as u32).wrapping_add(next as u32);
            let b = b0.wrapping_sub(len.wrapping_mul(prev as u32)).wrapping_add(a);
            &&& a == (a0 - prev + next) % 0x1_0000_0000
            &&& b == (b0 - n * prev + a) % 0x1_0000_0000
        }),
{
    let m: int = 0x1_0000_0000;
    let p: int = prev as int;
    let len = (n % m) as u32;
    let gone = a0.wrapping_sub(prev as u32);
    assert(gone == (a0 - p) % m);
    let a = gone.wrapping_add(next as u32);
    assert(a == (gone + next) % m);
    assert(a == (a0 - p + next) % m) by {
        lemma_add_mod_noop(a0 - p, next as int, m);
        lemma_small_mod(next as nat, m as nat);
    }
    let t = len.wrapping_mul(prev as u32);
    assert(t == (n * p) % m) by {
        lemma_mul_nonnegative(n % m, p);
        lemma_mul_mod_noop_left(n, p, m);
    }
    let less = b0.wrapping_sub(t);
    assert(less == (b0 - t) % m);
    assert(less == (b0 - n * p) % m) by {
        lemma_sub_mod_noop(b0 as int, n * p, m);
        lemma_small_mod(b0 as nat, m as nat);
    }
    let b = less.wrapping_add(a);
    assert(b == (less + a) % m);
    assert(b == (b0 - n * p + a) % m) by {
        lemma_add_mod_noop(b0 - n * p, a as int, m);
        lemma_small_mod(a as nat, m as nat);
    }
}

/// The prefix sums of a window that moved one byte to the right, in terms of
/// those of the window before the move.
proof fn lemma_shifted_prefix(window: Seq<u8>, next: u8, k: nat)
    requires
        k < window.len(),
    ensures
        sum_prefix(window.drop_first().push(next), k) + window[0] == sum_prefix(window, k + 1),
        weighted_prefix(window.drop_first().push(next), k) + window.len() * window[0]
            == weighted_prefix(window, k + 1) + sum_prefix(window.drop_first().push(next), k),
    decreases k,
{
    let moved = window.drop_first().push(next);
    let n: int = window.len() as int;
    if k > 0 {
        lemma_shifted_prefix(window, next, (k - 1) as nat);
        let x: int = window[k as int] as int;
        assert(moved[k - 1] == window[k as int]);
        assert((n - (k - 1)) * x == (n - k) * x + x) by (nonlinear_arith);
        assert((n - k) * x >= 0) by (nonlinear_arith)
            requires
                n - k >= 0,
                x >= 0,
        ;
    } else {
        reveal_with_fuel(sum_prefix, 2);
        reveal_with_fuel(weighted_prefix, 2);
        assert(n * window[0] >= 0) by (nonlinear_arith)
            requires
                n >= 0,
                window[0] >= 0,
        ;
    }
}

/// The sums of a window that moved one byte to the right, in terms of those
/// of the window before the move.
proof fn lemma_moved_sums(window: Seq<u8>, next: u8)
    requires
        0 < window.len(),
    ensures
        byte_sum(window.drop_first().push(next)) == byte_sum(window) - window[0] + next,
        weighted_sum(window.drop_first().push(next)) == weighted_sum(window) - window.len()
            * window[0] + byte_sum(window.drop_first().push(next)),
{
    let moved = window.drop_first().push(next);
    let n: int = window.len() as int;
    lemma_shifted_prefix(window, next, (n - 1) as nat);
    assert(moved[n - 1] == next);
    assert(sum_prefix(moved, n as nat) == sum_prefix(moved, (n - 1) as nat) + next);
    assert(weighted_prefix(moved, n as nat) == weighted_prefix(moved, (n - 1) as nat) + next) by {
        assert((n - (n - 1)) * (next as int) == next as int) by (nonlinear_arith);
    }
}

/// Rolling is the same as starting over: an accumulator computed over a
/// window, then rolled by the window's first byte and a new last byte, is the
/// accumulator computed from scratch over the moved window.
pub proof fn lemma_roll_slides_window(window: Seq<u8>, next: u8)
    requires
        0 < window.len() <= usize::MAX,
    ensures
        Rolling::of(window).rolled(window[0], next) == Rolling::of(
            window.drop_first().push(next),
        ),
{
    let m: int = 0x1_0000_0000;
    let moved = window.drop_first().push(next);
    let n: int = window.len() as int;
    let p: int = window[0] as int;
    let s0: int = byte_sum(window) as int;
    let w0: int = weighted_sum(window) as int;
    let s1: int = byte_sum(moved) as int;
    let w1: int = weighted_sum(moved) as int;
    let t: int = n * p;
    lemma_moved_sums(window, next);
    assert(s1 == s0 - p + next);
    assert(w1 == w0 - t + s1);
    let a1: int = (s0 % m - p + next) % m;
    assert(a1 == s1 % m) by {
        lemma_mod_shift(s0, next - p, m);
    }
    let b1: int = (w0 % m - t + a1) % m;
    assert(b1 == w1 % m) by {
        lemma_mod_shift(w0, a1 - t, m);
        lemma_mod_shift(s1, w0 - t, m);
    }
    let after = Rolling::of(window).rolled(window[0], next);
    assert(after.a == a1);
    assert(after.b == b1);
}

} // verus!
