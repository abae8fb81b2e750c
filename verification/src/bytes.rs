//! Sequences of bytes: overwriting, byte order, big-endian integers and bits.

use vstd::prelude::*;

verus! {

/// `s` with the bytes from `off` on replaced by `b`.
pub open spec fn splice(s: Seq<u8>, off: int, b: Seq<u8>) -> Seq<u8> {
    Seq::new(s.len(), |i: int| if off <= i < off + b.len() { b[i - off] } else { s[i] })
}

/// A sequence of `n` zero bytes.
pub open spec fn zeros(n: nat) -> Seq<u8> {
    Seq::new(n, |i: int| 0u8)
}

/// Overwrites the bytes of `buf` from `off` on with `b`.
pub fn write_at(buf: &mut Vec<u8>, off: usize, b: &[u8])
    requires
        off + b@.len() <= old(buf)@.len(),
    ensures
        final(buf)@ == splice(old(buf)@, off as int, b@),
{
    let n: usize = b.len();
    let total: usize = buf.len();
    let mut i: usize = 0;
    assert(buf@ =~= splice(old(buf)@, off as int, b@.take(0)));
    while i < n
        invariant
            i <= n == b@.len(),
            off + n <= total == buf@.len(),
            buf@ == splice(old(buf)@, off as int, b@.take(i as int)),
        decreases n - i,
    {
        buf.set(off + i, b[i]);
        i = i + 1;
        assert(buf@ =~= splice(old(buf)@, off as int, b@.take(i as int)));
    }
    assert(b@.take(n as int) =~= b@);
}

/// A copy of the `len` bytes of `b` from `off` on.
pub fn copy_of(b: &[u8], off: usize, len: usize) -> (r: Vec<u8>)
    requires
        off + len <= b@.len(),
    ensures
        r@ == b@.subrange(off as int, off + len),
{
    let total: usize = b.len();
    let mut r: Vec<u8> = Vec::new();
    let mut i: usize = 0;
    while i < len
        invariant
            i <= len,
            off + len <= total == b@.len(),
            r@ == b@.subrange(off as int, off + i),
        decreases len - i,
    {
        r.push(b[off + i]);
        i = i + 1;
        assert(r@ =~= b@.subrange(off as int, off + i));
    }
    r
}

/// `n` zero bytes.
pub fn zero_bytes(n: usize) -> (r: Vec<u8>)
    ensures
        r@ == zeros(n as nat),
{
    let r: Vec<u8> = vec![0u8; n];
    assert(r@ =~= zeros(n as nat));
    r
}

/// Pieces one behind the other.
pub open spec fn concat(p: Seq<Seq<u8>>) -> Seq<u8>
    decreases p.len(),
{
    if p.len() == 0 {
        Seq::empty()
    } else {
        concat(p.drop_last()) + p.last()
    }
}

/// Byte `y` of row `r`, where rows are `w` bytes each.
pub open spec fn grid(s: Seq<u8>, w: int, r: int, y: int) -> u8 {
    s[r * w + y]
}

/// Overwriting a part of one row changes that part alone.
pub proof fn lemma_grid_splice(s: Seq<u8>, w: int, n: int, r: int, off: int, b: Seq<u8>)
    requires
        0 <= r < n,
        0 <= off,
        off + b.len() <= w,
        s.len() == n * w,
    ensures
        0 <= r * w + off,
        r * w + off + b.len() <= s.len(),
        splice(s, r * w + off, b).len() == s.len(),
        forall|q: int, y: int|
            0 <= q < n && 0 <= y < w ==> #[trigger] grid(splice(s, r * w + off, b), w, q, y)
                == if q == r && off <= y < off + b.len() {
                b[y - off]
            } else {
                grid(s, w, q, y)
            },
{
    lemma_unit_below(r, n, w);
    assert forall|q: int, y: int| 0 <= q < n && 0 <= y < w implies #[trigger] grid(
        splice(s, r * w + off, b),
        w,
        q,
        y,
    ) == if q == r && off <= y < off + b.len() {
        b[y - off]
    } else {
        grid(s, w, q, y)
    } by {
        lemma_unit_below(q, n, w);
        if q < r {
            lemma_unit_below(q, r, w);
        } else if q > r {
            lemma_unit_below(r, q, w);
        }
    }
}

/// The `w` bytes from `off` on of row `r`, where rows are `rw` bytes each.
pub open spec fn field_at(s: Seq<u8>, rw: int, r: int, off: int, w: int) -> Seq<u8> {
    s.subrange(r * rw + off, r * rw + off + w)
}

/// Overwriting a field changes that field, and none beside it.
pub proof fn lemma_field_splice(
    s: Seq<u8>,
    rw: int,
    n: int,
    r: int,
    off: int,
    b: Seq<u8>,
    q: int,
    at: int,
    w: int,
)
    requires
        0 <= r < n,
        0 <= q < n,
        0 <= off,
        off + b.len() <= rw,
        0 <= at,
        0 <= w,
        at + w <= rw,
        n * rw <= s.len(),
        q != r || at + w <= off || off + b.len() <= at || (at == off && w == b.len()),
    ensures
        0 <= r * rw + off,
        r * rw + off + b.len() <= s.len(),
        field_at(splice(s, r * rw + off, b), rw, q, at, w) == if q == r && at == off && w
            == b.len() {
            b
        } else {
            field_at(s, rw, q, at, w)
        },
{
    lemma_unit_below(r, n, rw);
    lemma_unit_below(q, n, rw);
    if q < r {
        lemma_unit_below(q, r, rw);
    } else if q > r {
        lemma_unit_below(r, q, rw);
    }
    let t = splice(s, r * rw + off, b);
    if q == r && at == off && w == b.len() {
        assert(field_at(t, rw, q, at, w) =~= b);
    } else {
        assert(field_at(t, rw, q, at, w) =~= field_at(s, rw, q, at, w));
    }
}

/// Two blocks of rows with the same bytes in the same places are the same.
pub proof fn lemma_grid_equal(a: Seq<u8>, b: Seq<u8>, w: int, n: int)
    requires
        a.len() == n * w,
        b.len() == n * w,
        0 <= n,
        0 <= w,
        forall|q: int, y: int|
            0 <= q < n && 0 <= y < w ==> #[trigger] grid(a, w, q, y) == grid(b, w, q, y),
    ensures
        a == b,
{
    assert forall|i: int| 0 <= i < a.len() implies a[i] == b[i] by {
        if w == 0 {
            assert(n * w == 0) by (nonlinear_arith)
                requires
                    w == 0,
            ;
        } else {
            lemma_unit(i, w);
            let q = i / w;
            if q >= n {
                assert(q * w >= n * w) by (nonlinear_arith)
                    requires
                        q >= n,
                        w > 0,
                ;
            }
            assert(grid(a, w, q, i % w) == grid(b, w, q, i % w));
        }
    }
    assert(a =~= b);
}

/// Pieces of the same length stand one behind the other like rows.
pub proof fn lemma_concat_rows(p: Seq<Seq<u8>>, w: int)
    requires
        0 <= w,
        forall|k: int| 0 <= k < p.len() ==> (#[trigger] p[k]).len() == w,
    ensures
        concat(p).len() == p.len() * w,
        forall|q: int, y: int|
            0 <= q < p.len() && 0 <= y < w ==> #[trigger] grid(concat(p), w, q, y) == p[q][y],
    decreases p.len(),
{
    if p.len() == 0 {
        assert(0 * w == 0);
    } else {
        let t = p.drop_last();
        let n = t.len() as int;
        assert(forall|k: int| 0 <= k < n ==> t[k] == p[k]);
        lemma_concat_rows(t, w);
        lemma_next_unit(n, w);
        assert forall|q: int, y: int|
            0 <= q < p.len() && 0 <= y < w implies #[trigger] grid(concat(p), w, q, y)
            == p[q][y] by {
            if q < n {
                lemma_unit_below(q, n, w);
                assert(grid(concat(t), w, q, y) == t[q][y]);
            } else {
                vstd::arithmetic::mul::lemma_mul_nonnegative(n, w);
            }
        }
    }
}

// Byte order ---------------------------------------------------------------

/// The order in which a host keeps the bytes of a number.
#[derive(Clone, Copy, PartialEq, Eq, Structural, Debug)]
pub enum ByteOrder {
    Little,
    Big,
}

/// `s` with the bytes of every whole unit of `w` bytes in reverse order. What
/// is left behind the last whole unit keeps its place.
pub open spec fn swapped(s: Seq<u8>, w: int) -> Seq<u8> {
    if w <= 1 {
        s
    } else {
        Seq::new(
            s.len(),
            |i: int|
                if (i / w) * w + w <= s.len() {
                    s[(i / w) * w + (w - 1 - i % w)]
                } else {
                    s[i]
                },
        )
    }
}

/// Where an index stands in its unit.
pub proof fn lemma_unit(i: int, w: int)
    requires
        0 <= i,
        0 < w,
    ensures
        i == (i / w) * w + i % w,
        0 <= i % w < w,
        0 <= i / w,
        0 <= (i / w) * w <= i,
{
    vstd::arithmetic::div_mod::lemma_fundamental_div_mod(i, w);
    vstd::arithmetic::div_mod::lemma_mod_bound(i, w);
    vstd::arithmetic::mul::lemma_mul_is_commutative(i / w, w);
    vstd::arithmetic::div_mod::lemma_div_pos_is_pos(i, w);
}

/// The quotient and the remainder are the only pair that composes to a number.
pub proof fn lemma_unit_of(q: int, r: int, w: int)
    requires
        0 <= r < w,
        0 <= q,
    ensures
        (q * w + r) / w == q,
        (q * w + r) % w == r,
        0 <= q * w,
{
    vstd::arithmetic::div_mod::lemma_fundamental_div_mod_converse(q * w + r, w, q, r);
    vstd::arithmetic::mul::lemma_mul_nonnegative(q, w);
}

/// One unit more is `w` bytes more.
pub proof fn lemma_next_unit(q: int, w: int)
    ensures
        (q + 1) * w == q * w + w,
{
    vstd::arithmetic::mul::lemma_mul_is_distributive_add_other_way(w, q, 1);
}

/// A smaller number of units is at least one unit shorter.
pub proof fn lemma_unit_below(q: int, n: int, w: int)
    requires
        0 <= q < n,
        0 <= w,
    ensures
        0 <= q * w,
        q * w + w <= n * w,
{
    lemma_next_unit(q, w);
    vstd::arithmetic::mul::lemma_mul_inequality(q + 1, n, w);
    vstd::arithmetic::mul::lemma_mul_nonnegative(q, w);
}

/// Reverses the bytes of every whole unit of `w` bytes.
pub fn swap_units(src: &[u8], w: usize) -> (r: Vec<u8>)
    requires
        0 < w,
    ensures
        r@ == swapped(src@, w as int),
{
    let n: usize = src.len();
    if w == 1 {
        return copy_of(src, 0, n);
    }
    let mut r: Vec<u8> = Vec::new();
    let mut i: usize = 0;
    while i < n
        invariant
            i <= n == src@.len(),
            1 < w,
            r@ == swapped(src@, w as int).take(i as int),
        decreases n - i,
    {
        proof {
            lemma_unit(i as int, w as int);
        }
        let k: usize = i % w;
        let base: usize = i - k;
        if w <= n - base {
            r.push(src[base + (w - 1 - k)]);
        } else {
            r.push(src[i]);
        }
        i = i + 1;
        assert(r@ =~= swapped(src@, w as int).take(i as int));
    }
    assert(r@ =~= swapped(src@, w as int));
    r
}

/// Reversing the units twice gives back what was there.
pub proof fn law_swap_twice(s: Seq<u8>, w: int)
    ensures
        swapped(swapped(s, w), w) == s,
        swapped(s, w).len() == s.len(),
{
    if w > 1 {
        assert forall|i: int| 0 <= i < s.len() implies swapped(swapped(s, w), w)[i] == s[i] by {
            lemma_unit(i, w);
            let q = i / w;
            if q * w + w <= s.len() {
                let j = q * w + (w - 1 - i % w);
                lemma_unit_of(q, w - 1 - i % w, w);
            }
        }
        assert(swapped(swapped(s, w), w) =~= s);
    }
}

// Big-endian integers ------------------------------------------------------

/// 256 to the power of `k`.
pub open spec fn pow256(k: nat) -> nat
    decreases k,
{
    if k == 0 {
        1
    } else {
        256 * pow256((k - 1) as nat)
    }
}

/// The number that the bytes `s` spell, the most significant byte first.
pub open spec fn be_value(s: Seq<u8>) -> nat
    decreases s.len(),
{
    if s.len() == 0 {
        0
    } else {
        be_value(s.drop_last()) * 256 + s.last() as nat
    }
}

/// The two's complement number that the bytes `s` spell.
pub open spec fn be_signed(s: Seq<u8>) -> int {
    if s.len() > 0 && s[0] >= 128 {
        be_value(s) - pow256(s.len())
    } else {
        be_value(s) as int
    }
}

/// The `w` low-order bytes of `n`, the most significant byte first.
pub open spec fn be_bytes(n: nat, w: nat) -> Seq<u8>
    decreases w,
{
    if w == 0 {
        Seq::empty()
    } else {
        be_bytes(n / 256, (w - 1) as nat).push((n % 256) as u8)
    }
}

/// The powers of 256 that the widths of the format need.
pub proof fn lemma_pow256()
    ensures
        pow256(0) == 1,
        pow256(1) == 0x100,
        pow256(2) == 0x1_0000,
        pow256(4) == 0x1_0000_0000,
        pow256(7) == 0x100_0000_0000_0000,
        pow256(8) == 0x1_0000_0000_0000_0000,
{
    reveal_with_fuel(pow256, 9);
}

/// `w` bytes spell a number below 256 to the power of `w`.
pub proof fn lemma_be_value_bound(s: Seq<u8>)
    ensures
        be_value(s) < pow256(s.len()),
    decreases s.len(),
{
    if s.len() > 0 {
        lemma_be_value_bound(s.drop_last());
    }
}

/// The leading byte decides on which side of the middle the number lies.
pub proof fn lemma_be_value_leading(s: Seq<u8>)
    requires
        s.len() > 0,
    ensures
        s[0] * pow256((s.len() - 1) as nat) <= be_value(s) < (s[0] + 1) * pow256(
            (s.len() - 1) as nat,
        ),
    decreases s.len(),
{
    if s.len() > 1 {
        let t = s.drop_last();
        lemma_be_value_leading(t);
        let p = pow256((t.len() - 1) as nat) as int;
        let q = pow256((s.len() - 1) as nat) as int;
        let a = s[0] as int;
        let v = be_value(t) as int;
        let l = s.last() as int;
        assert(t[0] == s[0]);
        assert(q == 256 * p);
        assert(a * q <= v * 256 + l < (a + 1) * q) by (nonlinear_arith)
            requires
                q == 256 * p,
                a * p <= v < (a + 1) * p,
                0 <= l < 256,
        ;
        assert(be_value(s) == v * 256 + l);
    } else {
        reveal_with_fuel(be_value, 2);
        assert(s.drop_last().len() == 0);
        assert(be_value(s) == s[0]);
        let q = pow256((s.len() - 1) as nat) as int;
        assert(q == 1);
        let a = s[0] as int;
        assert(a * q == a && (a + 1) * q == a + 1) by (nonlinear_arith)
            requires
                q == 1,
        ;
    }
}

/// The bytes of a number that fits spell that number.
pub proof fn lemma_be_bytes_value(n: nat, w: nat)
    ensures
        be_bytes(n, w).len() == w,
        n < pow256(w) ==> be_value(be_bytes(n, w)) == n,
    decreases w,
{
    if w > 0 {
        lemma_be_bytes_value(n / 256, (w - 1) as nat);
        let b = be_bytes(n, w);
        assert(b.drop_last() =~= be_bytes(n / 256, (w - 1) as nat));
        if n < pow256(w) {
            assert(n / 256 < pow256((w - 1) as nat));
        }
    }
}

/// The bytes that spell a number are the bytes of that number.
pub proof fn lemma_be_value_bytes(s: Seq<u8>)
    ensures
        be_bytes(be_value(s), s.len()) == s,
    decreases s.len(),
{
    if s.len() > 0 {
        lemma_be_value_bytes(s.drop_last());
        let v = be_value(s.drop_last());
        assert((v * 256 + s.last() as nat) / 256 == v);
        assert((v * 256 + s.last() as nat) % 256 == s.last() as nat);
        assert(be_bytes(be_value(s), s.len()) =~= s);
    }
    assert(be_bytes(be_value(s), s.len()) =~= s);
}

/// The unsigned number that the bytes spell.
pub fn be_unsigned_of(s: &[u8]) -> (r: u64)
    requires
        s@.len() <= 8,
    ensures
        r == be_value(s@),
{
    let n: usize = s.len();
    let mut r: u64 = 0;
    let mut i: usize = 0;
    while i < n
        invariant
            i <= n == s@.len() <= 8,
            r == be_value(s@.take(i as int)),
        decreases n - i,
    {
        proof {
            let t = s@.take(i + 1);
            assert(t.drop_last() =~= s@.take(i as int));
            lemma_be_value_bound(s@.take(i as int));
            lemma_pow256();
            reveal_with_fuel(pow256, 9);
            assert(pow256(i as nat) <= pow256(7));
        }
        r = r * 256 + s[i] as u64;
        i = i + 1;
    }
    assert(s@.take(n as int) =~= s@);
    r
}

/// The two's complement number that the bytes spell.
pub fn be_signed_of(s: &[u8]) -> (r: i64)
    requires
        s@.len() == 1 || s@.len() == 2 || s@.len() == 4 || s@.len() == 8,
    ensures
        r == be_signed(s@),
{
    let n: usize = s.len();
    let v: u64 = be_unsigned_of(s);
    proof {
        lemma_pow256();
        lemma_be_value_bound(s@);
        lemma_be_value_leading(s@);
        let p = pow256((s@.len() - 1) as nat) as int;
        let a = s@[0] as int;
        assert(pow256(s@.len()) == 256 * p);
        assert(a < 128 ==> (a + 1) * p <= 128 * p) by (nonlinear_arith)
            requires
                p >= 0,
        ;
        assert(a >= 128 ==> a * p >= 128 * p) by (nonlinear_arith)
            requires
                p >= 0,
        ;
    }
    if s[0] < 128 {
        v as i64
    } else {
        // The distance to the next power of 256 is at most half of it.
        let gap: u64 = if n == 1 {
            0xff - v
        } else if n == 2 {
            0xffff - v
        } else if n == 4 {
            0xffff_ffff - v
        } else {
            0xffff_ffff_ffff_ffff - v
        };
        -1 - (gap as i64)
    }
}

/// The `w` low-order bytes of `n`, the most significant byte first.
pub fn be_bytes_of(n: u64, w: usize) -> (r: Vec<u8>)
    ensures
        r@ == be_bytes(n as nat, w as nat),
    decreases w,
{
    if w == 0 {
        Vec::new()
    } else {
        let mut r: Vec<u8> = be_bytes_of(n / 256, w - 1);
        r.push((n % 256) as u8);
        r
    }
}

/// A number below half of the range keeps its value as a two's complement
/// number.
pub proof fn lemma_be_signed_small(n: nat, w: nat)
    requires
        w > 0,
        2 * n < pow256(w),
    ensures
        be_signed(be_bytes(n, w)) == n,
{
    let b = be_bytes(n, w);
    lemma_be_bytes_value(n, w);
    lemma_be_value_leading(b);
    if b[0] >= 128 {
        let p = pow256((w - 1) as nat);
        assert(pow256(w) == 256 * p);
        assert(b[0] * p >= 128 * p) by (nonlinear_arith)
            requires
                b[0] >= 128,
        ;
        assert(false);
    }
}

// Bits ---------------------------------------------------------------------

/// The number of bytes that hold `n` bits.
pub open spec fn bit_bytes(n: nat) -> nat {
    (n + 7) / 8
}

/// The number of bytes that hold `n` bits.
pub fn bit_bytes_of(n: usize) -> (r: usize)
    ensures
        r == bit_bytes(n as nat),
{
    n / 8 + if n % 8 != 0 {
        1
    } else {
        0
    }
}

/// Bit `k` of a byte, counted from its high end, as 0 or 1.
pub open spec fn bit_at(b: u8, k: int) -> u8 {
    (b >> ((7 - k) as u8)) & 1u8
}

/// The byte whose bit `k` from the high end is set when `bits[8 * j + k]` is
/// there and not zero.
#[verifier::opaque]
pub open spec fn packed_byte(bits: Seq<u8>, j: int) -> u8 {
    let f = |k: int, w: u8|
        if 8 * j + k < bits.len() && bits[8 * j + k] != 0 {
            w
        } else {
            0u8
        };
    f(0, 128) | f(1, 64) | f(2, 32) | f(3, 16) | f(4, 8) | f(5, 4) | f(6, 2) | f(7, 1)
}

/// One bit per element, the first element in the high bit of the first byte;
/// the bits behind the last element are 0.
pub open spec fn packed_bits(bits: Seq<u8>) -> Seq<u8> {
    Seq::new(bit_bytes(bits.len()), |j: int| packed_byte(bits, j))
}

/// The first `n` bits of `s`, one byte of 0 or 1 for each.
pub open spec fn unpacked_bits(s: Seq<u8>, n: nat) -> Seq<u8> {
    Seq::new(n, |i: int| bit_at(s[i / 8], i % 8))
}

fn flag(bits: &[u8], base: usize, k: usize, w: u8) -> (r: u8)
    requires
        base <= bits@.len(),
    ensures
        r == if base + k < bits@.len() && bits@[base + k] != 0 {
            w
        } else {
            0
        },
{
    if k < bits.len() - base && bits[base + k] != 0 {
        w
    } else {
        0
    }
}

/// Packs one bit per element, the first element in the high bit.
pub fn pack_bits(bits: &[u8]) -> (r: Vec<u8>)
    ensures
        r@ == packed_bits(bits@),
{
    let total: usize = bits.len();
    let n: usize = bit_bytes_of(total);
    let mut r: Vec<u8> = Vec::new();
    let mut j: usize = 0;
    while j < n
        invariant
            total == bits@.len(),
            j <= n == bit_bytes(bits@.len()),
            r@ == packed_bits(bits@).take(j as int),
        decreases n - j,
    {
        let b: usize = 8 * j;
        let hi: u8 = flag(bits, b, 0, 128) | flag(bits, b, 1, 64) | flag(bits, b, 2, 32) | flag(
            bits,
            b,
            3,
            16,
        );
        r.push(
            hi | flag(bits, b, 4, 8) | flag(bits, b, 5, 4) | flag(bits, b, 6, 2) | flag(
                bits,
                b,
                7,
                1,
            ),
        );
        j = j + 1;
        assert(r@ =~= packed_bits(bits@).take(j as int)) by {
            reveal(packed_byte);
        }
    }
    assert(r@ =~= packed_bits(bits@));
    r
}

/// Unpacks `n` bits, the high bit of the first byte first.
pub fn unpack_bits(s: &[u8], n: usize) -> (r: Vec<u8>)
    requires
        bit_bytes(n as nat) <= s@.len(),
    ensures
        r@ == unpacked_bits(s@, n as nat),
{
    let mut r: Vec<u8> = Vec::new();
    let mut i: usize = 0;
    while i < n
        invariant
            i <= n,
            bit_bytes(n as nat) <= s@.len(),
            r@ == unpacked_bits(s@, n as nat).take(i as int),
        decreases n - i,
    {
        let k: u8 = (i % 8) as u8;
        r.push((s[i / 8] >> (7 - k)) & 1);
        i = i + 1;
        assert(r@ =~= unpacked_bits(s@, n as nat).take(i as int));
    }
    assert(r@ =~= unpacked_bits(s@, n as nat));
    r
}

pub proof fn lemma_pack_one(a: u8, b: u8, c: u8, d: u8, e: u8, f: u8, g: u8, h: u8)
    by (bit_vector)
    requires
        a == 0 || a == 128,
        b == 0 || b == 64,
        c == 0 || c == 32,
        d == 0 || d == 16,
        e == 0 || e == 8,
        f == 0 || f == 4,
        g == 0 || g == 2,
        h == 0 || h == 1,
    ensures
        (((a | b | c | d | e | f | g | h) >> 7u8) & 1u8) == if a == 0 { 0u8 } else { 1u8 },
        (((a | b | c | d | e | f | g | h) >> 6u8) & 1u8) == if b == 0 { 0u8 } else { 1u8 },
        (((a | b | c | d | e | f | g | h) >> 5u8) & 1u8) == if c == 0 { 0u8 } else { 1u8 },
        (((a | b | c | d | e | f | g | h) >> 4u8) & 1u8) == if d == 0 { 0u8 } else { 1u8 },
        (((a | b | c | d | e | f | g | h) >> 3u8) & 1u8) == if e == 0 { 0u8 } else { 1u8 },
        (((a | b | c | d | e | f | g | h) >> 2u8) & 1u8) == if f == 0 { 0u8 } else { 1u8 },
        (((a | b | c | d | e | f | g | h) >> 1u8) & 1u8) == if g == 0 { 0u8 } else { 1u8 },
        (((a | b | c | d | e | f | g | h) >> 0u8) & 1u8) == if h == 0 { 0u8 } else { 1u8 },
{
}

/// Unpacking what was packed gives 1 for every element that is not zero and 0
/// for the others.
pub proof fn law_unpack_packed(bits: Seq<u8>)
    ensures
        unpacked_bits(packed_bits(bits), bits.len()) == Seq::new(
            bits.len(),
            |i: int| if bits[i] != 0 { 1u8 } else { 0u8 },
        ),
{
    let want = Seq::new(bits.len(), |i: int| if bits[i] != 0 { 1u8 } else { 0u8 });
    let got = unpacked_bits(packed_bits(bits), bits.len());
    assert forall|i: int| 0 <= i < bits.len() implies got[i] == want[i] by {
        let j = i / 8;
        let f = |k: int, w: u8|
            if 8 * j + k < bits.len() && bits[8 * j + k] != 0 {
                w
            } else {
                0u8
            };
        lemma_pack_one(
            f(0, 128),
            f(1, 64),
            f(2, 32),
            f(3, 16),
            f(4, 8),
            f(5, 4),
            f(6, 2),
            f(7, 1),
        );
        reveal(packed_byte);
        assert(packed_bits(bits)[j] == packed_byte(bits, j));
        assert(i == 8 * j + i % 8);
        let k = i % 8;
        assert(k == 0 || k == 1 || k == 2 || k == 3 || k == 4 || k == 5 || k == 6 || k == 7);
    }
    assert(got =~= want);
}

} // verus!
