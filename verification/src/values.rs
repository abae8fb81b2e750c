//! What the bytes of cells stand for: numbers, truth values, bits and strings,
//! in the file and on the host.

use vstd::prelude::*;

use crate::bytes::{
    ByteOrder, be_bytes, be_signed, be_value, bit_at, lemma_be_bytes_value, lemma_be_value_bound,
    lemma_be_value_leading, lemma_unit_below, lemma_unit_of, pow256,
};
use crate::cells::{
    before_zero, cell_value, char_shown, first_bad, flipped, flipped_cell, in_order,
    law_flipped_value, lemma_before_zero, native, null_mask, string_content, unit, wide_char,
    wide_strings, without_spaces,
};
use crate::columns::{ColumnView, Letter, ScalingKind, column_ok};
use crate::error::CellError;
use crate::fields::scaled_type;
use crate::heap::{VarView, first_non_ascii, var_scaling_fits, var_value};

verus! {

// Numbers ------------------------------------------------------------------

/// The number that bytes spell, the least significant byte first.
pub open spec fn le_value(s: Seq<u8>) -> nat
    decreases s.len(),
{
    if s.len() == 0 {
        0
    } else {
        s[0] as nat + 256 * le_value(s.drop_first())
    }
}

/// The number that bytes of a file spell: the most significant byte comes first.
pub open spec fn file_value(s: Seq<u8>) -> nat {
    le_value(s.reverse())
}

/// The number that bytes spell on a host.
pub open spec fn host_value(s: Seq<u8>, order: ByteOrder) -> nat {
    match order {
        ByteOrder::Little => le_value(s),
        ByteOrder::Big => le_value(s.reverse()),
    }
}

/// Half of the range of integers of `w` bytes.
pub open spec fn half_range(w: int) -> int {
    if w == 1 {
        0x80
    } else if w == 2 {
        0x8000
    } else if w == 4 {
        0x8000_0000
    } else {
        0x8000_0000_0000_0000
    }
}

/// The signed integer of `w` bytes that an unsigned one stands for in two's
/// complement.
pub open spec fn signed(v: nat, w: int) -> int {
    if v < half_range(w) {
        v as int
    } else {
        v - 2 * half_range(w)
    }
}

/// Whether an element type is one of integers of `w` bytes.
pub open spec fn integers_of(l: Letter, w: int) -> bool {
    ||| l is B && w == 1
    ||| l is I && w == 2
    ||| l is J && w == 4
    ||| l is K && w == 8
}

/// Whether an element type is one of numbers of `w` bytes, or of pairs of such
/// numbers.
pub open spec fn numbers_of(l: Letter, w: int) -> bool {
    ||| integers_of(l, w)
    ||| (l is E || l is C) && w == 4
    ||| (l is D || l is M) && w == 8
}

/// How many numbers `n` elements are: a complex number is two.
pub open spec fn number_count(l: Letter, n: int) -> int {
    if l is C || l is M {
        2 * n
    } else {
        n
    }
}

pub proof fn lemma_file_value(s: Seq<u8>)
    ensures
        file_value(s) == be_value(s),
    decreases s.len(),
{
    if s.len() > 0 {
        lemma_file_value(s.drop_last());
        assert(s.reverse().drop_first() =~= s.drop_last().reverse());
        assert(s.reverse()[0] == s.last());
    } else {
        assert(s.reverse() =~= s);
    }
}

proof fn lemma_host_value(e: Seq<u8>, order: ByteOrder)
    ensures
        host_value(in_order(e, order), order) == be_value(e),
{
    lemma_file_value(e);
}

pub proof fn lemma_signed(e: Seq<u8>)
    requires
        e.len() == 1 || e.len() == 2 || e.len() == 4 || e.len() == 8,
    ensures
        be_signed(e) == signed(be_value(e), e.len() as int),
        pow256(e.len()) == 2 * half_range(e.len() as int),
        128 * pow256((e.len() - 1) as nat) == half_range(e.len() as int),
{
    reveal_with_fuel(pow256, 9);
    lemma_be_value_leading(e);
    let p = pow256((e.len() - 1) as nat) as int;
    let a = e[0] as int;
    if a >= 128 {
        assert(a * p >= 128 * p) by (nonlinear_arith)
            requires
                a >= 128,
                p >= 0,
        ;
    } else {
        assert((a + 1) * p <= 128 * p) by (nonlinear_arith)
            requires
                a + 1 <= 128,
                p >= 0,
        ;
    }
    lemma_be_value_bound(e);
}

/// The numbers that bytes spell are those of the positional system to base 256:
/// a sequence in two parts is the first part, moved up by the length of the
/// second, plus the second. The low-order bytes of a number spell it, and a
/// signed number is the one in the middle range that differs from the unsigned
/// one by nothing or by the whole range.
pub proof fn law_spelled_numbers(a: Seq<u8>, b: Seq<u8>, n: nat, w: nat)
    ensures
        be_value(a) == file_value(a),
        be_value(a + b) == be_value(a) * pow256(b.len()) + be_value(b),
        a.len() == 1 ==> be_value(a) == a[0],
        pow256(0) == 1,
        pow256(w + 1) == 256 * pow256(w),
        be_bytes(n, w).len() == w,
        n < pow256(w) ==> file_value(be_bytes(n, w)) == n,
        be_signed(a) == be_value(a) || be_signed(a) == be_value(a) - pow256(a.len()),
        a.len() > 0 ==> -pow256(a.len()) <= 2 * be_signed(a) < pow256(a.len()),
    decreases b.len(),
{
    lemma_file_value(a);
    lemma_be_bytes_value(n, w);
    lemma_file_value(be_bytes(n, w));
    lemma_be_value_bound(a);
    if a.len() == 1 {
        assert(a.drop_last() =~= Seq::empty());
    }
    if a.len() > 0 {
        lemma_be_value_leading(a);
        let p = pow256((a.len() - 1) as nat) as int;
        let x = a[0] as int;
        assert(pow256(a.len()) == 256 * p);
        assert(x >= 128 ==> x * p >= 128 * p) by (nonlinear_arith)
            requires
                p >= 0,
        ;
        assert(x < 128 ==> (x + 1) * p <= 128 * p) by (nonlinear_arith)
            requires
                p >= 0,
        ;
    }
    if b.len() == 0 {
        assert(a + b =~= a);
        assert(be_value(a) * 1 == be_value(a));
    } else {
        let c = b.drop_last();
        law_spelled_numbers(a, c, n, w);
        assert((a + b).drop_last() =~= a + c);
        let x = be_value(a) as int;
        let p = pow256(c.len()) as int;
        assert(256 * (x * p) == x * (256 * p)) by (nonlinear_arith);
    }
}

pub proof fn lemma_native_unit(s: Seq<u8>, w: int, k: int, order: ByteOrder)
    requires
        0 < w,
        0 <= k,
        k * w + w <= s.len(),
    ensures
        native(s, w, order).len() == s.len(),
        native(s, w, order).subrange(k * w, k * w + w) == in_order(
            s.subrange(k * w, k * w + w),
            order,
        ),
{
    lemma_unit_of(k, 0, w);
    let v = native(s, w, order);
    let e = s.subrange(k * w, k * w + w);
    if order is Little && w > 1 {
        assert forall|j: int| 0 <= j < w implies v.subrange(k * w, k * w + w)[j] == e.reverse()[j] by {
            lemma_unit_of(k, j, w);
        }
    }
    if w == 1 {
        assert(e.reverse() =~= e);
    }
    assert(v.subrange(k * w, k * w + w) =~= in_order(e, order));
}

/// What is read of a cell of numbers are its numbers: each of them is the one
/// that its bytes in the file spell, most significant first. The two parts of a
/// complex number are numbers of their own.
pub proof fn law_numbers_read(c: ColumnView, src: Seq<u8>, order: ByteOrder, w: int, k: int)
    requires
        column_ok(c),
        c.var_kind is None,
        src.len() == c.byte_width,
        numbers_of(c.letter, w),
        0 <= k < number_count(c.letter, c.repeat as int),
    ensures
        c.byte_width == number_count(c.letter, c.repeat as int) * w,
        cell_value(c, src, ScalingKind::Unscaled, order) matches Ok(v) && v.len() == src.len()
            && host_value(v.subrange(k * w, k * w + w), order) == file_value(
            src.subrange(k * w, k * w + w),
        ),
{
    let n = number_count(c.letter, c.repeat as int);
    let r = c.repeat as int;
    assert((2 * r) * w == r * (2 * w)) by (nonlinear_arith);
    assert(c.byte_width == n * w);
    lemma_unit_below(k, n, w);
    lemma_native_unit(src, w, k, order);
    lemma_host_value(src.subrange(k * w, k * w + w), order);
    lemma_file_value(src.subrange(k * w, k * w + w));
}

proof fn lemma_flipped_unit(src: Seq<u8>, w: int, n: int, k: int, order: ByteOrder)
    requires
        0 < w,
        0 <= k < n,
        src.len() == n * w,
    ensures
        flipped_cell(src, w, n, order).len() == src.len(),
        flipped_cell(src, w, n, order).subrange(k * w, k * w + w) == in_order(
            flipped(src.subrange(k * w, k * w + w)),
            order,
        ),
{
    lemma_unit_below(k, n, w);
    let v = flipped_cell(src, w, n, order);
    let e = src.subrange(k * w, k * w + w);
    crate::cells::lemma_flipped(e);
    assert forall|j: int| 0 <= j < w implies v.subrange(k * w, k * w + w)[j] == in_order(
        flipped(e),
        order,
    )[j] by {
        lemma_unit_of(k, j, w);
    }
    assert(v.subrange(k * w, k * w + w) =~= in_order(flipped(e), order));
}

/// What is read of integers whose column gives them the other signedness: of 16,
/// 32 and 64 bits the unsigned integer that is half of the range above the
/// stored signed one, of 8 bits the signed integer that is 128 below the stored
/// unsigned one.
pub proof fn law_other_sign_read(c: ColumnView, src: Seq<u8>, order: ByteOrder, w: int, k: int)
    requires
        column_ok(c),
        c.var_kind is None,
        src.len() == c.byte_width,
        integers_of(c.letter, w),
        0 <= k < c.repeat,
    ensures
        ({
            let stored = file_value(src.subrange(k * w, k * w + w));
            cell_value(c, src, ScalingKind::UnsignedTrick, order) matches Ok(v) && v.len()
                == src.len() && ({
                let read = host_value(v.subrange(k * w, k * w + w), order);
                &&& w > 1 ==> read == signed(stored, w) + half_range(w)
                &&& w == 1 ==> signed(read, 1) == stored - 128
            })
        }),
{
    let n = c.repeat as int;
    let e = src.subrange(k * w, k * w + w);
    lemma_unit_below(k, n, w);
    lemma_flipped_unit(src, w, n, k, order);
    crate::cells::lemma_flipped(e);
    law_flipped_value(e);
    lemma_signed(e);
    lemma_signed(flipped(e));
    lemma_host_value(flipped(e), order);
    lemma_file_value(e);
}

// Nulls --------------------------------------------------------------------

/// The integer that the bytes of an element spell in the file: unsigned where
/// it is one byte, else signed.
pub open spec fn file_integer(e: Seq<u8>, w: int) -> int {
    if w == 1 {
        file_value(e) as int
    } else {
        signed(file_value(e), w)
    }
}

/// The mask of a cell of integers has a byte for each of them: 1 where the
/// integer is the null value, else 0.
pub proof fn law_nulls_marked(l: Letter, n: nat, tnull: i64, src: Seq<u8>, w: int, k: int)
    requires
        integers_of(l, w),
        src.len() == n * w,
        0 <= k < n,
    ensures
        null_mask(l, n, tnull, src).len() == n,
        null_mask(l, n, tnull, src)[k] == if file_integer(
            src.subrange(k * w, k * w + w),
            w,
        ) == tnull {
            1u8
        } else {
            0u8
        },
{
    lemma_unit_below(k, n as int, w);
    let e = src.subrange(k * w, k * w + w);
    lemma_file_value(e);
    lemma_signed(e);
    assert(unit(src, w, k) == e);
}

// Truth values and bits ----------------------------------------------------

/// What is read of a logical byte is 1 where the byte is the letter T, else 0.
pub proof fn law_truth_read(c: ColumnView, src: Seq<u8>, order: ByteOrder, k: int)
    requires
        column_ok(c),
        c.var_kind is None,
        c.letter is L,
        src.len() == c.byte_width,
        0 <= k < c.repeat,
    ensures
        src.len() == c.repeat,
        cell_value(c, src, ScalingKind::Unscaled, order) matches Ok(v) && v.len() == c.repeat
            && v[k] == if src[k] == 'T' as u8 {
            1u8
        } else {
            0u8
        },
{
    assert(c.repeat * 1 == c.repeat);
}

/// What a bit weighs in its byte, counted from the high end.
pub open spec fn bit_weight(j: int) -> int {
    if j == 0 {
        128
    } else if j == 1 {
        64
    } else if j == 2 {
        32
    } else if j == 3 {
        16
    } else if j == 4 {
        8
    } else if j == 5 {
        4
    } else if j == 6 {
        2
    } else {
        1
    }
}

proof fn lemma_bit(b: u8)
    by (bit_vector)
    ensures
        (b >> 7u8) & 1u8 == (b / 128) % 2,
        (b >> 6u8) & 1u8 == (b / 64) % 2,
        (b >> 5u8) & 1u8 == (b / 32) % 2,
        (b >> 4u8) & 1u8 == (b / 16) % 2,
        (b >> 3u8) & 1u8 == (b / 8) % 2,
        (b >> 2u8) & 1u8 == (b / 4) % 2,
        (b >> 1u8) & 1u8 == (b / 2) % 2,
        (b >> 0u8) & 1u8 == (b / 1) % 2,
{
}

pub proof fn lemma_bit_at(b: u8, j: int)
    requires
        0 <= j < 8,
    ensures
        bit_at(b, j) == (b as int / bit_weight(j)) % 2,
{
    lemma_bit(b);
}

/// What is read of a cell of bits is one byte for each: 0 or 1 as the bit is,
/// from the high end of the first byte on. Eight bits take a byte.
pub proof fn law_bits_read(c: ColumnView, src: Seq<u8>, order: ByteOrder, k: int)
    requires
        column_ok(c),
        c.var_kind is None,
        c.letter is X,
        src.len() == c.byte_width,
        0 <= k < c.repeat,
    ensures
        8 * (src.len() - 1) < c.repeat <= 8 * src.len(),
        cell_value(c, src, ScalingKind::Unscaled, order) matches Ok(v) && v.len() == c.repeat
            && v[k] == (src[k / 8] as int / bit_weight(k % 8)) % 2,
{
    lemma_bit_at(src[k / 8], k % 8);
}

// Strings ------------------------------------------------------------------

/// Whether what a string of bytes holds is its first `m` characters: none of
/// them is zero, the last is no space, and behind them come spaces only, up to a
/// zero or to the end.
pub open spec fn string_holds(e: Seq<u8>, m: int) -> bool {
    &&& 0 <= m <= e.len()
    &&& forall|i: int| 0 <= i < m ==> e[i] != 0
    &&& m > 0 ==> e[m - 1] != ' ' as u8
    &&& exists|z: int| #[trigger] spaces_between(e, m, z)
}

/// Whether there are spaces only from one place to another, at which the string
/// ends or a zero stands.
pub open spec fn spaces_between(e: Seq<u8>, m: int, z: int) -> bool {
    &&& m <= z <= e.len()
    &&& forall|i: int| m <= i < z ==> e[i] == ' ' as u8
    &&& z < e.len() ==> e[z] == 0
}

proof fn lemma_without_spaces(s: Seq<u8>)
    ensures
        without_spaces(s).len() <= s.len(),
        without_spaces(s).len() > 0 ==> s[without_spaces(s).len() - 1] != 32,
        forall|i: int| without_spaces(s).len() <= i < s.len() ==> s[i] == 32,
    decreases s.len(),
{
    if s.len() > 0 && s.last() == 32 {
        let t = s.drop_last();
        lemma_without_spaces(t);
        assert forall|i: int| without_spaces(s).len() <= i < s.len() implies s[i] == 32 by {
            if i < t.len() {
                assert(t[i] == s[i]);
            }
        }
    }
}

proof fn lemma_string_holds(e: Seq<u8>, m: int)
    ensures
        string_holds(e, string_content(e).len() as int),
        string_holds(e, m) ==> m == string_content(e).len(),
{
    let b = before_zero(e);
    let n = string_content(e).len() as int;
    lemma_before_zero(e);
    lemma_without_spaces(b);
    assert forall|i: int| n <= i < b.len() implies e[i] == 32 by {
        assert(b[i] == e[i]);
    }
    assert(spaces_between(e, n, b.len() as int));
    if string_holds(e, m) {
        let z = choose|z: int| #[trigger] spaces_between(e, m, z);
        if m < n {
            assert(e[n - 1] != 32 && e[n - 1] != 0);
            assert(z <= n - 1);
            assert(e[z] == 0);
        } else if n < m {
            assert(e[m - 1] != 32 && e[m - 1] != 0);
            assert(b.len() <= m - 1);
            assert(e[b.len() as int] == 0);
        }
    }
}

proof fn lemma_bad(src: Seq<u8>, len: int, n: nat)
    ensures
        match first_bad(src, len, n) {
            Some(c) => 0 <= c < n && char_shown(src, len, c) && src[c] >= 128,
            None => forall|c: int| 0 <= c < n ==> !(#[trigger] char_shown(src, len, c)) || src[c]
                < 128,
        },
    decreases n,
{
    if n > 0 {
        lemma_bad(src, len, (n - 1) as nat);
    }
}

/// The bytes of one string of a column of strings.
pub open spec fn string_size(c: ColumnView) -> int {
    match c.tdim {
        Some(d) => d[0] as int,
        None => c.repeat as int,
    }
}

/// What is read of strings: four bytes for each of their characters, which is
/// the byte in the file where the string holds it, and zero behind that. A
/// string that holds a byte that is not ASCII is refused. Here it is character
/// `p` of string `q`, which holds `m` characters.
pub proof fn law_strings_read(
    c: ColumnView,
    src: Seq<u8>,
    order: ByteOrder,
    q: int,
    p: int,
    m: int,
)
    requires
        column_ok(c),
        c.var_kind is None,
        c.letter is A,
        src.len() == c.byte_width,
        0 <= q,
        0 <= p < string_size(c),
        q * string_size(c) + string_size(c) <= src.len(),
        string_holds(
            src.subrange(q * string_size(c), q * string_size(c) + string_size(c)),
            m,
        ),
    ensures
        src.len() == c.repeat,
        ({
            let at = q * string_size(c) + p;
            match cell_value(c, src, ScalingKind::Unscaled, order) {
                Ok(v) => v.len() == 4 * src.len() && host_value(
                    v.subrange(4 * at, 4 * at + 4),
                    order,
                ) == (if p < m {
                    src[at] as nat
                } else {
                    0
                }) && (p < m ==> src[at] < 128),
                Err(e) => exists|i: int|
                    0 <= i < src.len() && src[i] >= 128 && e == (CellError::NonAsciiByte {
                        byte: #[trigger] src[i],
                        position: (i % string_size(c)) as usize,
                    }),
            }
        }),
{
    let l = string_size(c);
    let at = q * l + p;
    assert(c.repeat * 1 == c.repeat);
    lemma_unit_of(q, p, l);
    lemma_string_holds(unit(src, l, q), m);
    lemma_bad(src, l, src.len());
    if first_bad(src, l, src.len()) is None {
        let v = wide_strings(src, l, order);
        let u = v.subrange(4 * at, 4 * at + 4);
        assert(char_shown(src, l, at) == (p < m));
        let e = if p < m {
            wide_char(src[at], order)
        } else {
            seq![0u8, 0u8, 0u8, 0u8]
        };
        assert forall|j: int| 0 <= j < 4 implies u[j] == e[j] by {
            assert((4 * at + j) / 4 == at);
            assert((4 * at + j) % 4 == j);
        }
        assert(u =~= e);
        lemma_four(if p < m {
            src[at]
        } else {
            0
        }, order);
        if !(p < m) {
            assert(wide_char(0, order) =~= e);
        }
    } else {
        let i = first_bad(src, l, src.len())->0;
        assert(src[i] >= 128);
    }
}

proof fn lemma_four(b: u8, order: ByteOrder)
    ensures
        host_value(wide_char(b, order), order) == b,
{
    let e = seq![0u8, 0u8, 0u8, b];
    lemma_host_value(e, order);
    reveal_with_fuel(be_value, 5);
    assert(e.drop_last() =~= seq![0u8, 0u8, 0u8]);
    assert(e.drop_last().drop_last() =~= seq![0u8, 0u8]);
    assert(e.drop_last().drop_last().drop_last() =~= seq![0u8]);
    assert(e.drop_last().drop_last().drop_last().drop_last() =~= Seq::empty());
}

/// Strings of which none holds a byte that is not ASCII are read.
pub proof fn law_plain_strings_read(c: ColumnView, src: Seq<u8>, order: ByteOrder)
    requires
        column_ok(c),
        c.var_kind is None,
        c.letter is A,
        src.len() == c.byte_width,
        forall|i: int| 0 <= i < src.len() ==> src[i] < 128,
    ensures
        cell_value(c, src, ScalingKind::Unscaled, order) is Ok,
{
    lemma_bad(src, string_size(c), src.len());
}

// Heap ---------------------------------------------------------------------

/// Elements in the heap are read as the same elements in a row are; none are an
/// array of none, and bytes that are not those of so many elements are refused.
pub proof fn law_heap_reads_as_row(
    c: ColumnView,
    src: Seq<u8>,
    as_bytes: bool,
    kind: ScalingKind,
    order: ByteOrder,
)
    requires
        column_ok(c),
        c.var_kind is None,
        !(c.letter is A),
        var_scaling_fits(c.letter, kind),
    ensures
        ({
            let v = var_value(c.letter, src, c.repeat as nat, as_bytes, kind, order);
            if c.repeat == 0 {
                v matches Ok(VarView::Array { dtype, bytes }) && bytes.len() == 0 && dtype
                    == scaled_type(c.letter, kind)
            } else if src.len() != c.byte_width {
                v is Err
            } else if kind is General {
                v matches Ok(VarView::Stored { bytes }) && bytes == src
            } else {
                v matches Ok(VarView::Array { dtype, bytes }) && Ok::<Seq<u8>, CellError>(bytes)
                    == cell_value(c, src, kind, order) && dtype == scaled_type(c.letter, kind)
            }
        }),
{
}

/// Characters in the heap are read as a text of as many characters, each with
/// the code of its byte, or as the bytes where these are asked for. A text that
/// is not ASCII is refused.
pub proof fn law_heap_text_read(src: Seq<u8>, n: nat, order: ByteOrder, k: int)
    requires
        0 <= k < src.len(),
    ensures
        var_value(Letter::A, src, n, true, ScalingKind::Unscaled, order) == Ok::<
            VarView,
            CellError,
        >(VarView::Bytes(src)),
        match var_value(Letter::A, src, n, false, ScalingKind::Unscaled, order) {
            Ok(VarView::Text(t)) => t.len() == src.len() && src[k] < 128 && t[k] as int == src[k],
            Ok(_) => false,
            Err(e) => exists|i: int|
                0 <= i < src.len() && src[i] >= 128 && e == (CellError::NonAsciiByte {
                    byte: #[trigger] src[i],
                    position: i as usize,
                }),
        },
{
    lemma_ascii(src);
    if first_non_ascii(src) is Some {
        let i = first_non_ascii(src)->0;
        assert(src[i] >= 128);
    }
}

pub proof fn lemma_ascii(s: Seq<u8>)
    ensures
        match first_non_ascii(s) {
            Some(i) => 0 <= i < s.len() && s[i] >= 128,
            None => forall|i: int| 0 <= i < s.len() ==> s[i] < 128,
        },
    decreases s.len(),
{
    if s.len() > 0 {
        lemma_ascii(s.drop_last());
        if first_non_ascii(s) is None {
            assert forall|i: int| 0 <= i < s.len() implies s[i] < 128 by {
                if i < s.len() - 1 {
                    assert(s.drop_last()[i] == s[i]);
                }
            }
        }
    }
}

} // verus!
