//! What is stored of values: numbers, truth values, bits and strings, as the
//! cells of a file hold them.

use vstd::prelude::*;

use crate::bytes::{
    ByteOrder, bit_at, lemma_pack_one, lemma_unit_below, lemma_unit_of, packed_byte, swapped,
};
use crate::cells::{flipped, law_flipped_value, lemma_flipped};
use crate::columns::{ColumnView, Letter, column_ok};
use crate::encode::{
    codepoint, encoded, first_wide, flipped_units, lemma_transform_width, source_size,
    transform_for,
};
use crate::error::CellError;
use crate::types::{is_other_sign, is_plain, natural};
use crate::values::{
    bit_weight, file_value, half_range, integers_of, le_value, lemma_bit_at, lemma_file_value,
    lemma_native_unit, lemma_signed, number_count, numbers_of, signed, string_size,
};
use crate::vla::{VarInput, heap_form, var_bytes};

verus! {

/// Whether a column takes elements of a kind and a size: strings of its length,
/// in bytes or in characters; truth values for logical elements and bits; and
/// numbers of just its type. A column whose offset gives integers the other
/// signedness takes unsigned integers of its size. Other columns with a scale or
/// an offset take nothing.
pub open spec fn takes(c: ColumnView, kind: char, size: usize) -> bool {
    if c.letter is A {
        (kind == 'S' && size == string_size(c)) || (kind == 'U' && size == 4 * string_size(c))
    } else if c.letter is L || c.letter is X || is_plain(c.tscal, c.tzero) {
        natural(c.letter, kind, size as int)
    } else {
        is_other_sign(c.letter, c.tscal, c.tzero) && kind == 'u' && size > 1 && integers_of(
            c.letter,
            size as int,
        )
    }
}

/// A value is taken for a column where it is one of its elements, and else
/// refused.
pub proof fn law_values_taken(c: ColumnView, kind: char, size: usize)
    ensures
        transform_for(c, kind, size) is Ok <==> takes(c, kind, size),
{
}

/// What is stored of numbers are the numbers, the most significant byte first.
/// Where the column stores unsigned integers as signed ones, the stored integer
/// is half of the range below the given one.
pub proof fn law_numbers_stored(
    c: ColumnView,
    kind: char,
    size: usize,
    src: Seq<u8>,
    w: int,
    k: int,
)
    requires
        column_ok(c),
        c.var_kind is None,
        takes(c, kind, size),
        numbers_of(c.letter, w),
        src.len() == c.byte_width,
        0 <= k < number_count(c.letter, c.repeat as int),
    ensures
        transform_for(c, kind, size) matches Ok(t) && encoded(t, src) matches Ok(v) && v.len()
            == c.byte_width && ({
            let given = le_value(src.subrange(k * w, k * w + w));
            let stored = file_value(v.subrange(k * w, k * w + w));
            if is_plain(c.tscal, c.tzero) {
                stored == given
            } else {
                signed(stored, w) == given - half_range(w)
            }
        }),
{
    let t = transform_for(c, kind, size)->Ok_0;
    let n = number_count(c.letter, c.repeat as int);
    let r = c.repeat as int;
    lemma_transform_width(c, kind, size);
    assert((2 * r) * w == r * (2 * w)) by (nonlinear_arith);
    assert(c.byte_width == n * w);
    lemma_unit_below(k, n, w);
    assert(src.take(source_size(t)) =~= src);
    let e = src.subrange(k * w, k * w + w);
    lemma_native_unit(src, w, k, ByteOrder::Little);
    let s = swapped(src, w);
    assert(s.subrange(k * w, k * w + w) =~= e.reverse());
    assert(e.reverse().reverse() =~= e);
    if t is UnsignedXor {
        let v = flipped_units(s, w);
        let f = v.subrange(k * w, k * w + w);
        let g = e.reverse();
        lemma_flipped(g);
        assert forall|j: int| 0 <= j < w implies f[j] == flipped(g)[j] by {
            lemma_unit_of(k, j, w);
            assert(g[j] == s[k * w + j]);
        }
        assert(f =~= flipped(g));
        law_flipped_value(g);
        lemma_signed(g);
        lemma_signed(flipped(g));
        lemma_file_value(g);
        lemma_file_value(f);
    }
}

/// What is stored of truth values are the letters T and F.
pub proof fn law_truth_stored(c: ColumnView, src: Seq<u8>, k: int)
    requires
        column_ok(c),
        c.var_kind is None,
        c.letter is L,
        src.len() == c.repeat,
        0 <= k < c.repeat,
    ensures
        transform_for(c, 'b', 1) matches Ok(t) && encoded(t, src) matches Ok(v) && v.len()
            == c.byte_width && v[k] == if src[k] == 0 {
            'F' as u8
        } else {
            'T' as u8
        },
{
    let t = transform_for(c, 'b', 1)->Ok_0;
    lemma_transform_width(c, 'b', 1);
    assert(c.repeat * 1 == c.repeat);
    assert(src.take(source_size(t)) =~= src);
}

/// What is stored of truth values as bits: each bit is set where its value is not
/// zero, from the high end of the first byte on, and the bits behind the last
/// value are not. Here it is the bit at place `k`.
pub proof fn law_bits_stored(c: ColumnView, src: Seq<u8>, k: int)
    requires
        column_ok(c),
        c.var_kind is None,
        c.letter is X,
        src.len() == c.repeat,
        0 <= k < 8 * c.byte_width,
    ensures
        transform_for(c, 'b', 1) matches Ok(t) && encoded(t, src) matches Ok(v) && v.len()
            == c.byte_width && (v[k / 8] as int / bit_weight(k % 8)) % 2 == if k < src.len()
            && src[k] != 0 {
            1int
        } else {
            0
        },
{
    let t = transform_for(c, 'b', 1)->Ok_0;
    assert(src.take(source_size(t)) =~= src);
    let j = k / 8;
    lemma_packed_bit(src, j, k % 8);
    lemma_bit_at(packed_byte(src, j), k % 8);
    assert(8 * j + k % 8 == k);
}

proof fn lemma_packed_bit(bits: Seq<u8>, j: int, k: int)
    requires
        0 <= k < 8,
    ensures
        bit_at(packed_byte(bits, j), k) == if 8 * j + k < bits.len() && bits[8 * j + k] != 0 {
            1u8
        } else {
            0u8
        },
{
    reveal(packed_byte);
    let f = |k: int, w: u8|
        if 8 * j + k < bits.len() && bits[8 * j + k] != 0 {
            w
        } else {
            0u8
        };
    lemma_pack_one(f(0, 128), f(1, 64), f(2, 32), f(3, 16), f(4, 8), f(5, 4), f(6, 2), f(7, 1));
}

/// What is stored of strings of bytes are the bytes. What is stored of strings of
/// characters is the code of each, and a character that is not ASCII is refused.
pub proof fn law_strings_stored(c: ColumnView, kind: char, size: usize, src: Seq<u8>, k: int)
    requires
        column_ok(c),
        c.var_kind is None,
        c.letter is A,
        takes(c, kind, size),
        src.len() == if kind == 'S' {
            c.repeat as int
        } else {
            4 * c.repeat
        },
        0 <= k < c.repeat,
    ensures
        transform_for(c, kind, size) matches Ok(t) && match encoded(t, src) {
            Ok(v) => v.len() == c.byte_width && if kind == 'S' {
                v == src
            } else {
                v[k] == le_value(src.subrange(4 * k, 4 * k + 4)) && v[k] < 128
            },
            Err(e) => kind == 'U' && exists|i: int|
                0 <= i < c.repeat && (#[trigger] le_value(src.subrange(4 * i, 4 * i + 4))) > 127
                    && e == (CellError::NonAsciiChar {
                    codepoint: le_value(src.subrange(4 * i, 4 * i + 4)) as u32,
                    position: i as usize,
                }),
        },
{
    let t = transform_for(c, kind, size)->Ok_0;
    lemma_transform_width(c, kind, size);
    assert(c.repeat * 1 == c.repeat);
    assert(src.take(source_size(t)) =~= src);
    if kind == 'U' {
        lemma_wide(src, c.repeat as nat);
        assert forall|i: int| 0 <= i < c.repeat implies codepoint(src, i) == #[trigger] le_value(
            src.subrange(4 * i, 4 * i + 4),
        ) by {
            lemma_codepoint(src, i);
        }
        if first_wide(src, c.repeat as nat) is Some {
            let i = first_wide(src, c.repeat as nat)->0;
            assert(le_value(src.subrange(4 * i, 4 * i + 4)) > 127);
        }
    }
}

proof fn lemma_wide(s: Seq<u8>, n: nat)
    ensures
        match first_wide(s, n) {
            Some(i) => 0 <= i < n && codepoint(s, i) > 127,
            None => forall|i: int| 0 <= i < n ==> #[trigger] codepoint(s, i) <= 127,
        },
    decreases n,
{
    if n > 0 {
        lemma_wide(s, (n - 1) as nat);
    }
}

proof fn lemma_codepoint(s: Seq<u8>, i: int)
    requires
        0 <= i,
        4 * i + 4 <= s.len(),
    ensures
        codepoint(s, i) == le_value(s.subrange(4 * i, 4 * i + 4)),
{
    let e = s.subrange(4 * i, 4 * i + 4);
    reveal_with_fuel(le_value, 5);
    let e1 = e.drop_first();
    let e2 = e1.drop_first();
    let e3 = e2.drop_first();
    assert(e1[0] == s[4 * i + 1] && e2[0] == s[4 * i + 2] && e3[0] == s[4 * i + 3]);
    assert(e3.drop_first() =~= Seq::empty());
}

/// Elements are stored in the heap as the same elements in a row are.
pub proof fn law_heap_stored_as_row(c: ColumnView, kind: char, size: usize, src: Seq<u8>)
    requires
        column_ok(c),
        c.var_kind is None,
        !(c.letter is A),
        is_plain(c.tscal, c.tzero),
        takes(c, kind, size),
        src.len() == c.repeat * size,
    ensures
        transform_for(c, kind, size) matches Ok(t) && encoded(t, src) == Ok::<Seq<u8>, CellError>(
            heap_form(c.letter, src),
        ),
{
    let t = transform_for(c, kind, size)->Ok_0;
    lemma_transform_width(c, kind, size);
    assert(c.repeat * 1 == c.repeat);
    assert(src.take(source_size(t)) =~= src);
}

/// The cell of an array in the heap is its elements in the form of the heap, and
/// that of a string is its bytes.
pub proof fn law_heap_bytes(c: VarInput, l: Letter)
    ensures
        match c {
            VarInput::Bytes(b) => var_bytes(c, l) == b@,
            VarInput::Text(s) => var_bytes(c, l) == vstd::utf8::encode_utf8(s@),
            VarInput::Array { shape, kind, itemsize, contiguous, bytes } => bytes@.len()
                == shape@[0] * itemsize ==> var_bytes(c, l) == heap_form(l, bytes@),
            VarInput::Other => true,
        },
{
    if let VarInput::Array { shape, kind, itemsize, contiguous, bytes } = c {
        if bytes@.len() == shape@[0] * itemsize {
            assert(bytes@.take((shape@[0] * itemsize) as int) =~= bytes@);
        }
    }
}

} // verus!
