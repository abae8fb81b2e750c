//! From the bytes of a cell in the file to the bytes of its value on the host.

use vstd::prelude::*;

use crate::bytes::{
    ByteOrder, be_bytes, be_signed, be_signed_of, be_value, copy_of, lemma_be_value_bytes,
    lemma_next_unit, lemma_unit, lemma_unit_below, lemma_unit_of, pow256, swap_units, swapped,
    unpack_bits, unpacked_bits,
};
use crate::columns::{
    Column, ColumnView, Letter, ScalingKind, byteswap_unit, cell_bytes, column_ok, element_size,
    is_integer, product, swap_width,
};
use crate::error::CellError;

verus! {

/// Unit `k` of the units of `w` bytes in `s`.
pub open spec fn unit(s: Seq<u8>, w: int, k: int) -> Seq<u8> {
    s.subrange(k * w, k * w + w)
}

/// The bytes of a number, given from its most significant one, in the order of
/// the host.
pub open spec fn in_order(e: Seq<u8>, order: ByteOrder) -> Seq<u8> {
    match order {
        ByteOrder::Big => e,
        ByteOrder::Little => e.reverse(),
    }
}

/// Numbers of `w` bytes each, in the order of the host.
pub open spec fn native(s: Seq<u8>, w: int, order: ByteOrder) -> Seq<u8> {
    match order {
        ByteOrder::Big => s,
        ByteOrder::Little => swapped(s, w),
    }
}

/// Brings numbers of `elem_size` bytes each into the order of the host.
pub fn copy_with_byteswap(src: &[u8], elem_size: usize, order: ByteOrder) -> (r: Vec<u8>)
    requires
        elem_size > 0,
    ensures
        r@ == native(src@, elem_size as int, order),
{
    match order {
        ByteOrder::Big => {
            let r: Vec<u8> = copy_of(src, 0, src.len());
            assert(r@ =~= src@);
            r
        },
        ByteOrder::Little => swap_units(src, elem_size),
    }
}

// Integers of the other signedness -----------------------------------------

/// The stored number plus half of the range of its type: for `I`, `J` and `K`
/// the unsigned number, for `B` the signed number of the same width.
pub open spec fn flipped(e: Seq<u8>) -> Seq<u8> {
    be_bytes((be_signed(e) + 128 * pow256((e.len() - 1) as nat)) as nat, e.len())
}

/// Replacing the leading byte moves the number by that byte's weight.
proof fn lemma_leading_byte(e: Seq<u8>, x: u8)
    requires
        e.len() > 0,
    ensures
        be_value(e.update(0, x)) == be_value(e) + (x - e[0]) * pow256((e.len() - 1) as nat),
    decreases e.len(),
{
    let u = e.update(0, x);
    if e.len() == 1 {
        reveal_with_fuel(be_value, 2);
        assert(u.drop_last() =~= Seq::empty());
        assert(e.drop_last() =~= Seq::empty());
        assert(pow256(0) == 1);
        assert((x - e[0]) * 1 == x - e[0]);
        assert(u.last() == x);
    } else {
        lemma_leading_byte(e.drop_last(), x);
        assert(u.drop_last() =~= e.drop_last().update(0, x));
        let d = x - e[0];
        let p = pow256((e.len() - 2) as nat) as int;
        assert(pow256((e.len() - 1) as nat) == 256 * p);
        assert(d * (256 * p) == 256 * (d * p)) by (nonlinear_arith);
        assert(e.drop_last()[0] == e[0]);
        assert(u.last() == e.last());
        assert(be_value(u) == be_value(u.drop_last()) * 256 + u.last());
        assert(be_value(e) == be_value(e.drop_last()) * 256 + e.last());
    }
}

/// To add half of the range is to flip the leading bit.
pub proof fn lemma_flipped(e: Seq<u8>)
    requires
        e.len() > 0,
    ensures
        flipped(e) == e.update(
            0,
            if e[0] < 128 {
                (e[0] + 128) as u8
            } else {
                (e[0] - 128) as u8
            },
        ),
{
    let x = if e[0] < 128 {
        (e[0] + 128) as u8
    } else {
        (e[0] - 128) as u8
    };
    let u = e.update(0, x);
    let p = pow256((e.len() - 1) as nat) as int;
    lemma_leading_byte(e, x);
    assert(pow256(e.len()) == 256 * p);
    assert((x - e[0]) * p == if e[0] < 128 {
        128 * p
    } else {
        -(128 * p)
    }) by (nonlinear_arith)
        requires
            x == if e[0] < 128 {
                e[0] + 128
            } else {
                e[0] - 128
            },
    ;
    assert(be_value(u) == be_signed(e) + 128 * p);
    lemma_be_value_bytes(u);
}

/// Flipping twice gives back the stored number.
pub proof fn law_flip_twice(e: Seq<u8>)
    requires
        e.len() > 0,
    ensures
        flipped(flipped(e)) == e,
{
    lemma_flipped(e);
    lemma_flipped(flipped(e));
    assert(flipped(flipped(e)) =~= e);
}

/// What the other signedness means: a stored `I`, `J` or `K` stands for the
/// unsigned number that is half of the range above it, and a stored `B` for
/// the signed number that is 128 below it.
pub proof fn law_flipped_value(e: Seq<u8>)
    requires
        e.len() > 0,
    ensures
        be_value(flipped(e)) == be_signed(e) + 128 * pow256((e.len() - 1) as nat),
        be_signed(flipped(e)) == be_value(e) - 128 * pow256((e.len() - 1) as nat),
{
    lemma_flipped(e);
    let p = pow256((e.len() - 1) as nat) as int;
    let f = flipped(e);
    lemma_leading_byte(e, f[0]);
    assert(pow256(e.len()) == 256 * p);
    assert((f[0] - e[0]) * p == if e[0] < 128 {
        128 * p
    } else {
        -(128 * p)
    }) by (nonlinear_arith)
        requires
            f[0] == if e[0] < 128 {
                e[0] + 128
            } else {
                e[0] - 128
            },
    ;
}

/// A cell of `n` integers of `w` bytes, each turned into the other signedness
/// and put into the order of the host.
pub open spec fn flipped_cell(src: Seq<u8>, w: int, n: int, order: ByteOrder) -> Seq<u8> {
    Seq::new((n * w) as nat, |i: int| in_order(flipped(unit(src, w, i / w)), order)[i % w])
}

/// Turns the integers of a cell into the other signedness.
pub fn convert_unsigned_trick_cell(letter: Letter, n: usize, src: &[u8], order: ByteOrder) -> (r:
    Vec<u8>)
    requires
        is_integer(letter),
        src@.len() == cell_bytes(letter, n as nat),
    ensures
        r@ == flipped_cell(src@, element_size(letter)->0 as int, n as int, order),
{
    let w: usize = match letter {
        Letter::B => 1,
        Letter::I => 2,
        Letter::J => 4,
        _ => 8,
    };
    let total: usize = src.len();
    let ghost want = flipped_cell(src@, w as int, n as int, order);
    let mut r: Vec<u8> = Vec::new();
    let mut i: usize = 0;
    while i < total
        invariant
            i <= total == src@.len(),
            total == n * w,
            w > 0,
            want == flipped_cell(src@, w as int, n as int, order),
            r@ == want.take(i as int),
        decreases total - i,
    {
        proof {
            lemma_unit(i as int, w as int);
            let q = i as int / w as int;
            if q >= n {
                lemma_unit_ge(q, n as int, w as int);
            }
            lemma_unit_below(q, n as int, w as int);
            lemma_flipped(unit(src@, w as int, q));
        }
        let k: usize = i % w;
        let base: usize = i - k;
        let from: usize = match order {
            ByteOrder::Big => k,
            ByteOrder::Little => w - 1 - k,
        };
        let b: u8 = src[base + from];
        let v: u8 = if from == 0 {
            b.wrapping_add(128)
        } else {
            b
        };
        proof {
            let e = unit(src@, w as int, i as int / w as int);
            assert(e[from as int] == b);
            assert(flipped(e)[from as int] == v);
            assert(in_order(flipped(e), order)[k as int] == v);
        }
        r.push(v);
        i = i + 1;
        assert(r@ =~= want.take(i as int));
    }
    assert(r@ =~= want);
    r
}

/// More whole units are at least as long.
pub proof fn lemma_unit_ge(q: int, n: int, w: int)
    requires
        q >= n,
        w >= 0,
    ensures
        q * w >= n * w,
{
    vstd::arithmetic::mul::lemma_mul_inequality(n, q, w);
}

// Nulls --------------------------------------------------------------------

/// The stored integer that the bytes of an element spell: unsigned for `B`,
/// two's complement for the others.
pub open spec fn stored_integer(letter: Letter, e: Seq<u8>) -> int {
    if letter is B {
        be_value(e) as int
    } else {
        be_signed(e)
    }
}

/// One byte for each of `n` elements: 1 where the stored integer is `tnull`.
pub open spec fn null_mask(letter: Letter, n: nat, tnull: i64, src: Seq<u8>) -> Seq<u8> {
    Seq::new(
        n,
        |k: int|
            if stored_integer(letter, unit(src, element_size(letter)->0 as int, k)) == tnull {
                1u8
            } else {
                0u8
            },
    )
}

/// Marks the elements that hold the null value.
pub fn write_cell_mask(letter: Letter, n: usize, tnull: i64, src: &[u8]) -> (r: Vec<u8>)
    requires
        is_integer(letter),
        src@.len() == cell_bytes(letter, n as nat),
    ensures
        r@ == null_mask(letter, n as nat, tnull, src@),
{
    let w: usize = match letter {
        Letter::B => 1,
        Letter::I => 2,
        Letter::J => 4,
        _ => 8,
    };
    let total: usize = src.len();
    let mut r: Vec<u8> = Vec::new();
    let mut k: usize = 0;
    while k < n
        invariant
            k <= n,
            total == src@.len() == n * w,
            is_integer(letter),
            element_size(letter) == Some(w),
            w == 1 || w == 2 || w == 4 || w == 8,
            w == 1 <==> letter is B,
            r@ == null_mask(letter, n as nat, tnull, src@).take(k as int),
        decreases n - k,
    {
        proof {
            lemma_unit_below(k as int, n as int, w as int);
        }
        let base: usize = k * w;
        let e: Vec<u8> = copy_of(src, base, w);
        let hit: bool = match letter {
            Letter::B => {
                proof {
                    reveal_with_fuel(be_value, 2);
                    assert(e@.drop_last() =~= Seq::empty());
                }
                e[0] as i64 == tnull
            },
            _ => be_signed_of(&e) == tnull,
        };
        r.push(
            if hit {
                1
            } else {
                0
            },
        );
        k = k + 1;
        assert(r@ =~= null_mask(letter, n as nat, tnull, src@).take(k as int));
    }
    assert(r@ =~= null_mask(letter, n as nat, tnull, src@));
    r
}

// Logical values -----------------------------------------------------------

/// 1 for the letter T, 0 for any other byte.
pub open spec fn truth_values(src: Seq<u8>) -> Seq<u8> {
    Seq::new(src.len(), |i: int| if src[i] == 84 { 1u8 } else { 0u8 })
}

/// Turns logical bytes into 0 and 1.
pub fn convert_l_cell(src: &[u8]) -> (r: Vec<u8>)
    ensures
        r@ == truth_values(src@),
{
    let n: usize = src.len();
    let mut r: Vec<u8> = Vec::new();
    let mut i: usize = 0;
    while i < n
        invariant
            i <= n == src@.len(),
            r@ == truth_values(src@).take(i as int),
        decreases n - i,
    {
        r.push(
            if src[i] == 84 {
                1
            } else {
                0
            },
        );
        i = i + 1;
        assert(r@ =~= truth_values(src@).take(i as int));
    }
    assert(r@ =~= truth_values(src@));
    r
}

// Characters ---------------------------------------------------------------

/// The characters before the first zero byte.
pub open spec fn before_zero(s: Seq<u8>) -> Seq<u8>
    decreases s.len(),
{
    if s.len() == 0 {
        s
    } else if s[0] == 0 {
        Seq::empty()
    } else {
        seq![s[0]] + before_zero(s.drop_first())
    }
}

/// The characters without the spaces at the end.
pub open spec fn without_spaces(s: Seq<u8>) -> Seq<u8>
    decreases s.len(),
{
    if s.len() > 0 && s.last() == 32 {
        without_spaces(s.drop_last())
    } else {
        s
    }
}

/// What a string cell holds: its bytes up to the first zero byte, without the
/// spaces at their end.
pub open spec fn string_content(s: Seq<u8>) -> Seq<u8> {
    without_spaces(before_zero(s))
}

/// What stands before the first zero byte is a prefix.
pub proof fn lemma_before_zero(s: Seq<u8>)
    ensures
        before_zero(s).len() <= s.len(),
        before_zero(s) == s.take(before_zero(s).len() as int),
        before_zero(s).len() < s.len() ==> s[before_zero(s).len() as int] == 0,
        forall|i: int| 0 <= i < before_zero(s).len() ==> s[i] != 0,
    decreases s.len(),
{
    if s.len() > 0 && s[0] != 0 {
        let t = s.drop_first();
        lemma_before_zero(t);
        let b = before_zero(s);
        let c = before_zero(t);
        assert(b =~= s.take(b.len() as int)) by {
            assert forall|i: int| 0 < i < b.len() implies b[i] == s[i] by {
                assert(b[i] == c[i - 1]);
                assert(t.take(c.len() as int)[i - 1] == t[i - 1]);
            }
        }
        assert forall|i: int| 0 <= i < b.len() implies s[i] != 0 by {
            if i > 0 {
                assert(s[i] == t[i - 1]);
            }
        }
        if b.len() < s.len() {
            assert(s[b.len() as int] == t[c.len() as int]);
        }
    } else {
        assert(before_zero(s) =~= s.take(before_zero(s).len() as int));
    }
}

/// The first place of a byte other than zero that is followed by zero only is
/// the length before the first zero.
proof fn lemma_before_zero_len(s: Seq<u8>, n: int)
    requires
        0 <= n <= s.len(),
        forall|i: int| 0 <= i < n ==> s[i] != 0,
        n < s.len() ==> s[n] == 0,
    ensures
        before_zero(s) == s.take(n),
{
    lemma_before_zero(s);
    let b = before_zero(s).len() as int;
    if b < n {
        assert(s[b] != 0);
    } else if b > n {
        assert(s[n] != 0);
    }
}

/// The length of what the string of `len` bytes from `off` on holds.
fn content_len(src: &[u8], off: usize, len: usize) -> (r: usize)
    requires
        off + len <= src@.len(),
    ensures
        r == string_content(src@.subrange(off as int, off + len)).len(),
        r <= len,
{
    let ghost s = src@.subrange(off as int, off + len);
    let total: usize = src.len();
    let mut n: usize = 0;
    while n < len && src[off + n] != 0
        invariant
            n <= len,
            off + len <= total == src@.len(),
            s == src@.subrange(off as int, off + len),
            forall|i: int| 0 <= i < n ==> s[i] != 0,
        decreases len - n,
    {
        n = n + 1;
    }
    proof {
        lemma_before_zero_len(s, n as int);
    }
    while n > 0 && src[off + n - 1] == 32
        invariant
            n <= len,
            off + len <= total == src@.len(),
            s == src@.subrange(off as int, off + len),
            string_content(s) == without_spaces(s.take(n as int)),
        decreases n,
    {
        proof {
            assert(s.take(n as int).last() == src@[off + n - 1]);
            assert(s.take(n as int).drop_last() =~= s.take(n - 1));
        }
        n = n - 1;
    }
    proof {
        assert(n > 0 ==> s.take(n as int).last() == src@[off + n - 1]);
    }
    n
}

/// Whether character `c` of a cell of strings of `len` bytes is part of what
/// its string holds.
pub open spec fn char_shown(src: Seq<u8>, len: int, c: int) -> bool {
    c % len < string_content(unit(src, len, c / len)).len()
}

/// The first character among the first `n` that is shown and not ASCII.
pub open spec fn first_bad(src: Seq<u8>, len: int, n: nat) -> Option<int>
    decreases n,
{
    if n == 0 {
        None
    } else {
        match first_bad(src, len, (n - 1) as nat) {
            Some(c) => Some(c),
            None => if char_shown(src, len, n - 1) && src[n - 1] >= 128 {
                Some(n - 1)
            } else {
                None
            },
        }
    }
}

proof fn lemma_first_bad(src: Seq<u8>, len: int, m: nat, n: nat)
    requires
        m <= n,
        first_bad(src, len, m) is Some,
    ensures
        first_bad(src, len, n) == first_bad(src, len, m),
    decreases n,
{
    if m < n {
        lemma_first_bad(src, len, m, (n - 1) as nat);
    }
}

/// The four bytes of a character in the order of the host.
pub open spec fn wide_char(b: u8, order: ByteOrder) -> Seq<u8> {
    in_order(seq![0u8, 0u8, 0u8, b], order)
}

/// Strings of `len` bytes each as strings of four bytes per character. What a
/// string does not hold is zero.
pub open spec fn wide_strings(src: Seq<u8>, len: int, order: ByteOrder) -> Seq<u8> {
    Seq::new(
        4 * src.len(),
        |i: int|
            if char_shown(src, len, i / 4) {
                wide_char(src[i / 4], order)[i % 4]
            } else {
                0u8
            },
    )
}

/// The value of a cell of strings: four bytes per character, or the first
/// character that is not ASCII.
pub open spec fn string_cell(src: Seq<u8>, len: int, order: ByteOrder) -> Result<
    Seq<u8>,
    CellError,
> {
    if len == 0 {
        Ok(Seq::empty())
    } else {
        match first_bad(src, len, src.len()) {
            Some(c) => Err(
                CellError::NonAsciiByte { byte: src[c], position: (c % len) as usize },
            ),
            None => Ok(wide_strings(src, len, order)),
        }
    }
}

/// The bytes of one string of a character column.
pub open spec fn string_len(c: ColumnView) -> usize {
    match c.tdim {
        Some(d) => d[0],
        None => c.repeat,
    }
}

/// Turns strings of `len` bytes each into strings of four bytes per character.
pub fn convert_strings(src: &[u8], len: usize, order: ByteOrder) -> (r: Result<Vec<u8>, CellError>)
    requires
        len == 0 ==> src@.len() == 0,
        len > 0 ==> src@.len() as int % len as int == 0,
        4 * src@.len() <= usize::MAX,
    ensures
        match r {
            Ok(v) => string_cell(src@, len as int, order) == Ok::<Seq<u8>, CellError>(v@),
            Err(e) => string_cell(src@, len as int, order) == Err::<Seq<u8>, CellError>(e),
        },
{
    let n: usize = src.len();
    let mut r: Vec<u8> = Vec::new();
    if len == 0 {
        assert(r@ =~= Seq::empty());
        return Ok(r);
    }
    let ghost want = wide_strings(src@, len as int, order);
    let mut shown: usize = 0;
    let mut c: usize = 0;
    assert(r@ =~= want.take(0));
    while c < n
        invariant
            c <= n == src@.len(),
            len > 0,
            n as int % len as int == 0,
            4 * n <= usize::MAX,
            want == wide_strings(src@, len as int, order),
            r@ == want.take(4 * c),
            first_bad(src@, len as int, c as nat) is None,
            c as int % len as int != 0 ==> shown == string_content(
                unit(src@, len as int, c as int / len as int),
            ).len(),
        decreases n - c,
    {
        proof {
            lemma_whole_units(c as int, n as int, len as int);
        }
        let k: usize = c % len;
        let base: usize = c - k;
        if k == 0 {
            shown = content_len(src, base, len);
        }
        assert(shown == string_content(unit(src@, len as int, c as int / len as int)).len());
        let b: u8 = src[c];
        if k < shown {
            if b >= 128 {
                proof {
                    assert(first_bad(src@, len as int, (c + 1) as nat) == Some(c as int));
                    lemma_first_bad(src@, len as int, (c + 1) as nat, n as nat);
                }
                return Err(CellError::NonAsciiByte { byte: b, position: k });
            }
            match order {
                ByteOrder::Big => {
                    r.push(0);
                    r.push(0);
                    r.push(0);
                    r.push(b);
                },
                ByteOrder::Little => {
                    r.push(b);
                    r.push(0);
                    r.push(0);
                    r.push(0);
                },
            }
        } else {
            r.push(0);
            r.push(0);
            r.push(0);
            r.push(0);
        }
        proof {
            assert forall|i: int| 4 * c <= i < 4 * c + 4 implies want[i] == r@[i] by {
                assert(i / 4 == c);
                assert(i % 4 == i - 4 * c);
            }
            assert(r@ =~= want.take(4 * (c + 1)));
            if c + 1 < n {
                lemma_step_unit(c as int, len as int);
            }
        }
        c = c + 1;
    }
    assert(r@ =~= want);
    Ok(r)
}

/// An index below a whole number of units lies in a unit that ends in time.
pub proof fn lemma_whole_units(c: int, n: int, w: int)
    requires
        0 <= c < n,
        0 < w,
        n % w == 0,
    ensures
        c == (c / w) * w + c % w,
        0 <= c % w < w,
        0 <= c / w < n / w,
        0 <= (c / w) * w,
        (c / w) * w + w <= n,
{
    lemma_unit(c, w);
    lemma_unit(n, w);
    if c / w >= n / w {
        lemma_unit_ge(c / w, n / w, w);
    }
    lemma_unit_below(c / w, n / w, w);
}

/// The next index is in the same unit, or starts one.
proof fn lemma_step_unit(c: int, w: int)
    requires
        0 <= c,
        0 < w,
    ensures
        (c + 1) % w != 0 ==> (c + 1) / w == c / w,
{
    lemma_unit(c, w);
    lemma_unit(c + 1, w);
    if c % w + 1 < w {
        lemma_unit_of(c / w, c % w + 1, w);
    } else {
        lemma_next_unit(c / w, w);
        lemma_unit_of(c / w + 1, 0, w);
    }
}

// Whole cells --------------------------------------------------------------

/// Whether a kind of scaling can apply to an element type.
pub open spec fn scaling_fits(letter: Letter, kind: ScalingKind) -> bool {
    kind is UnsignedTrick ==> is_integer(letter)
}

/// The value of a fixed-width cell on the host. Scaled floats are not among
/// these values.
pub open spec fn cell_value(c: ColumnView, src: Seq<u8>, kind: ScalingKind, order: ByteOrder)
    -> Result<Seq<u8>, CellError> {
    if kind is UnsignedTrick {
        Ok(flipped_cell(src, element_size(c.letter)->0 as int, c.repeat as int, order))
    } else {
        match c.letter {
            Letter::L => Ok(truth_values(src)),
            Letter::A => string_cell(src, string_len(c) as int, order),
            Letter::X => Ok(unpacked_bits(src, c.repeat as nat)),
            _ => Ok(native(src, swap_width(c.letter) as int, order)),
        }
    }
}

/// The bytes of the value of a cell.
pub open spec fn value_width(c: ColumnView, kind: ScalingKind) -> nat {
    if kind is UnsignedTrick {
        c.byte_width as nat
    } else if kind is General {
        8 * c.repeat as nat
    } else {
        match c.letter {
            Letter::A => 4 * c.repeat as nat,
            Letter::X => c.repeat as nat,
            _ => c.byte_width as nat,
        }
    }
}

/// In a column whose dimensions make up its repeat count, the first of them
/// divides it.
proof fn lemma_first_divides(d: Seq<usize>)
    requires
        d.len() > 0,
        d[0] > 0,
    ensures
        product(d) as int % d[0] as int == 0,
    decreases d.len(),
{
    let w = d[0] as int;
    if d.len() == 1 {
        reveal_with_fuel(product, 2);
        assert(d.drop_last() =~= Seq::empty());
        assert(product(d) == w) by (nonlinear_arith)
            requires
                product(d) == 1 * w,
        ;
        lemma_unit_of(1, 0, w);
    } else {
        let t = d.drop_last();
        lemma_first_divides(t);
        let p = product(t) as int;
        let l = d.last() as int;
        lemma_unit(p, w);
        let q = p / w;
        assert(p * l == (q * l) * w) by (nonlinear_arith)
            requires
                p == q * w,
        ;
        vstd::arithmetic::mul::lemma_mul_nonnegative(q, l);
        lemma_unit_of(q * l, 0, w);
    }
}

/// The value of a cell has the width that is said of it.
pub proof fn lemma_cell_value_width(
    c: ColumnView,
    src: Seq<u8>,
    kind: ScalingKind,
    order: ByteOrder,
)
    requires
        column_ok(c),
        c.var_kind is None,
        src.len() == c.byte_width,
        scaling_fits(c.letter, kind),
        !(kind is General),
    ensures
        cell_value(c, src, kind, order) matches Ok(v) ==> v.len() == value_width(c, kind),
{
    match element_size(c.letter) {
        Some(w) => {
            assert(c.byte_width == c.repeat * w);
            assert(c.letter is A ==> c.byte_width == c.repeat);
        },
        None => {},
    }
    if c.letter is A && string_len(c) == 0 {
        assert(c.repeat == 0);
    }
}

/// Turns a fixed-width cell into its value on the host.
pub fn convert_column_cell(
    col: &Column,
    src: &[u8],
    kind: ScalingKind,
    order: ByteOrder,
) -> (r: Result<Vec<u8>, CellError>)
    requires
        column_ok(col@),
        col.var_kind is None,
        src@.len() == col.byte_width,
        scaling_fits(col.letter, kind),
        !(kind is General),
        col.letter is A ==> 4 * col.repeat <= usize::MAX,
    ensures
        match r {
            Ok(v) => cell_value(col@, src@, kind, order) == Ok::<Seq<u8>, CellError>(v@)
                && v@.len() == value_width(col@, kind),
            Err(e) => cell_value(col@, src@, kind, order) == Err::<Seq<u8>, CellError>(e),
        },
{
    proof {
        lemma_cell_value_width(col@, src@, kind, order);
    }
    match kind {
        ScalingKind::UnsignedTrick => Ok(
            convert_unsigned_trick_cell(col.letter, col.repeat, src, order),
        ),
        _ => match col.letter {
            Letter::L => Ok(convert_l_cell(src)),
            Letter::A => {
                assert(col.byte_width == col.repeat * 1);
                let len: usize = match &col.tdim {
                    Some(d) => {
                        proof {
                            assert(col@.tdim == Some(d@));
                            lemma_first_divides(d@);
                        }
                        d[0]
                    },
                    None => {
                        proof {
                            if col.repeat > 0 {
                                lemma_unit_of(1, 0, col.repeat as int);
                            }
                        }
                        col.repeat
                    },
                };
                convert_strings(src, len, order)
            },
            Letter::X => Ok(unpack_bits(src, col.repeat)),
            _ => Ok(copy_with_byteswap(src, byteswap_unit(col.letter), order)),
        },
    }
}

} // verus!
