//! From the bytes of a value on the host to the bytes of its cell in the file.
//! Values come from a little-endian host.

use vstd::prelude::*;

use crate::bytes::{
    ByteOrder, bit_bytes, copy_of, law_swap_twice, law_unpack_packed, lemma_unit, lemma_unit_below,
    lemma_unit_of, pack_bits, packed_bits, swap_units, swapped, unpacked_bits,
};
use crate::cells::{
    char_shown, first_bad, flipped, flipped_cell, lemma_flipped, lemma_unit_ge, lemma_whole_units,
    native, string_cell, string_content, string_len, truth_values, unit, wide_strings,
};
use crate::columns::{
    Column, ColumnView, Letter, MINUS_ZERO_BITS, ONE_BITS, TWO_15_BITS, TWO_31_BITS, TWO_63_BITS,
    column_ok, dims_present, element_size, swap_width,
};
use crate::error::{CellError, TransformError};
use crate::fields::string_length;

verus! {

/// What becomes of the bytes of a value on the way into a cell.
#[derive(Clone, Copy, PartialEq, Eq, Structural, Debug)]
pub enum WriteTransform {
    /// The bytes of each unit are reversed.
    Identity { elem_w: usize, num_elems: usize },
    /// The bytes of each unsigned integer are reversed and its leading bit is
    /// flipped, which takes off half of its range.
    UnsignedXor { elem_w: usize, num_elems: usize },
    /// Truth values become the letters T and F.
    BoolToLogical { num_bytes: usize },
    /// The bytes stay as they are.
    BytesCopy { num_bytes: usize },
    /// Characters of four bytes become ASCII bytes.
    UnicodeToAscii { num_chars: usize },
    /// Truth values become bits.
    BitsPackMsb { num_bits: usize },
}

/// Whether TSCAL and TZERO leave a column unscaled.
pub open spec fn unscaled(c: ColumnView) -> bool {
    c.tscal == ONE_BITS && (c.tzero == 0 || c.tzero == MINUS_ZERO_BITS)
}

/// Whether a column stores unsigned integers with an offset.
pub open spec fn stores_unsigned(c: ColumnView) -> bool {
    c.tscal == ONE_BITS && ((c.letter is I && c.tzero == TWO_15_BITS) || (c.letter is J && c.tzero
        == TWO_31_BITS) || (c.letter is K && c.tzero == TWO_63_BITS))
}

/// The kind of the elements that a numeric column takes.
pub open spec fn natural_kind(l: Letter) -> char {
    match l {
        Letter::L => 'b',
        Letter::B => 'u',
        Letter::I | Letter::J | Letter::K => 'i',
        Letter::E | Letter::D => 'f',
        Letter::C | Letter::M => 'c',
        Letter::A => 'S',
        Letter::X => 'b',
    }
}

/// The transform that takes elements of a kind and a size into a column.
pub open spec fn transform_for(c: ColumnView, kind: char, size: usize) -> Result<
    WriteTransform,
    TransformError,
> {
    let w = swap_width(c.letter);
    let num_elems = (c.byte_width / w) as usize;
    if c.letter is A {
        let chars = string_len(c);
        if kind == 'S' && size == chars {
            Ok(WriteTransform::BytesCopy { num_bytes: c.byte_width })
        } else if kind == 'U' && size == 4 * chars {
            Ok(WriteTransform::UnicodeToAscii { num_chars: c.byte_width })
        } else {
            Err(TransformError::NeedsStrings { chars })
        }
    } else if c.letter is X {
        if kind == 'b' && size == 1 {
            Ok(WriteTransform::BitsPackMsb { num_bits: c.repeat })
        } else {
            Err(TransformError::NeedsBits { bits: c.repeat })
        }
    } else if c.letter is L {
        if kind == 'b' && size == 1 {
            Ok(WriteTransform::BoolToLogical { num_bytes: num_elems })
        } else {
            Err(TransformError::NeedsBool)
        }
    } else {
        let natural = element_size(c.letter)->0;
        if stores_unsigned(c) {
            if kind == 'u' && size == natural {
                Ok(WriteTransform::UnsignedXor { elem_w: w, num_elems })
            } else {
                Err(TransformError::NeedsUnsigned { size: natural })
            }
        } else if !unscaled(c) {
            Err(TransformError::Scaled)
        } else if kind == natural_kind(c.letter) && size == natural {
            Ok(WriteTransform::Identity { elem_w: w, num_elems })
        } else {
            Err(TransformError::NeedsKind { kind: natural_kind(c.letter), size: natural })
        }
    }
}

/// The transform that takes elements of a kind and a size into a column.
pub fn column_transform(col: &Column, kind: char, size: usize) -> (r: Result<
    WriteTransform,
    TransformError,
>)
    requires
        dims_present(col@),
    ensures
        r == transform_for(col@, kind, size),
{
    let (natural_kind, natural_size, w): (char, usize, usize) = match col.letter {
        Letter::A => {
            let chars: usize = string_length(col);
            if kind == 'S' && size == chars {
                return Ok(WriteTransform::BytesCopy { num_bytes: col.byte_width });
            }
            if kind == 'U' && size % 4 == 0 && size / 4 == chars {
                return Ok(WriteTransform::UnicodeToAscii { num_chars: col.byte_width });
            }
            return Err(TransformError::NeedsStrings { chars });
        },
        Letter::X => {
            if kind == 'b' && size == 1 {
                return Ok(WriteTransform::BitsPackMsb { num_bits: col.repeat });
            }
            return Err(TransformError::NeedsBits { bits: col.repeat });
        },
        Letter::L => {
            if kind == 'b' && size == 1 {
                return Ok(WriteTransform::BoolToLogical { num_bytes: col.byte_width });
            }
            return Err(TransformError::NeedsBool);
        },
        Letter::B => ('u', 1, 1),
        Letter::I => ('i', 2, 2),
        Letter::J => ('i', 4, 4),
        Letter::K => ('i', 8, 8),
        Letter::E => ('f', 4, 4),
        Letter::D => ('f', 8, 8),
        Letter::C => ('c', 8, 4),
        Letter::M => ('c', 16, 8),
    };
    let num_elems: usize = col.byte_width / w;
    let unsigned: bool = col.tscal == ONE_BITS && match col.letter {
        Letter::I => col.tzero == TWO_15_BITS,
        Letter::J => col.tzero == TWO_31_BITS,
        Letter::K => col.tzero == TWO_63_BITS,
        _ => false,
    };
    if unsigned {
        if kind == 'u' && size == natural_size {
            return Ok(WriteTransform::UnsignedXor { elem_w: w, num_elems });
        }
        return Err(TransformError::NeedsUnsigned { size: natural_size });
    }
    let plain: bool = col.tscal == ONE_BITS && (col.tzero == 0 || col.tzero == MINUS_ZERO_BITS);
    if kind == natural_kind && size == natural_size && plain {
        return Ok(WriteTransform::Identity { elem_w: w, num_elems });
    }
    if !plain {
        return Err(TransformError::Scaled);
    }
    Err(TransformError::NeedsKind { kind: natural_kind, size: natural_size })
}

// Transforms ---------------------------------------------------------------

/// The bytes that a transform takes.
pub open spec fn source_size(t: WriteTransform) -> int {
    match t {
        WriteTransform::Identity { elem_w, num_elems } => num_elems * elem_w,
        WriteTransform::UnsignedXor { elem_w, num_elems } => num_elems * elem_w,
        WriteTransform::BoolToLogical { num_bytes } => num_bytes as int,
        WriteTransform::BytesCopy { num_bytes } => num_bytes as int,
        WriteTransform::UnicodeToAscii { num_chars } => 4 * num_chars,
        WriteTransform::BitsPackMsb { num_bits } => num_bits as int,
    }
}

/// The bytes that a transform gives.
pub open spec fn stored_size(t: WriteTransform) -> int {
    match t {
        WriteTransform::UnicodeToAscii { num_chars } => num_chars as int,
        WriteTransform::BitsPackMsb { num_bits } => bit_bytes(num_bits as nat) as int,
        _ => source_size(t),
    }
}

/// Whether the unit of a transform is one.
pub open spec fn transform_ok(t: WriteTransform) -> bool {
    match t {
        WriteTransform::Identity { elem_w, num_elems } => elem_w > 0,
        WriteTransform::UnsignedXor { elem_w, num_elems } => elem_w > 0,
        _ => true,
    }
}

/// A byte with its leading bit flipped.
pub open spec fn flip_bit(b: u8) -> u8 {
    if b < 128 {
        (b + 128) as u8
    } else {
        (b - 128) as u8
    }
}

/// Units of `w` bytes, each with its leading bit flipped.
pub open spec fn flipped_units(s: Seq<u8>, w: int) -> Seq<u8> {
    Seq::new(
        s.len(),
        |i: int|
            if i % w == 0 {
                flip_bit(s[i])
            } else {
                s[i]
            },
    )
}

/// The letter T for every byte that is not zero, the letter F for the others.
pub open spec fn logical_letters(s: Seq<u8>) -> Seq<u8> {
    Seq::new(s.len(), |i: int| if s[i] == 0 { 70u8 } else { 84u8 })
}

/// The code point of character `i`, from its lowest byte on.
pub open spec fn codepoint(s: Seq<u8>, i: int) -> int {
    s[4 * i] + 256 * s[4 * i + 1] + 65536 * s[4 * i + 2] + 16777216 * s[4 * i + 3]
}

/// The first of `n` characters that is not ASCII.
pub open spec fn first_wide(s: Seq<u8>, n: nat) -> Option<int>
    decreases n,
{
    if n == 0 {
        None
    } else {
        match first_wide(s, (n - 1) as nat) {
            Some(i) => Some(i),
            None => if codepoint(s, n - 1) > 127 {
                Some(n - 1)
            } else {
                None
            },
        }
    }
}

proof fn lemma_first_wide(s: Seq<u8>, m: nat, n: nat)
    requires
        m <= n,
        first_wide(s, m) is Some,
    ensures
        first_wide(s, n) == first_wide(s, m),
    decreases n,
{
    if m < n {
        lemma_first_wide(s, m, (n - 1) as nat);
    }
}

/// The cell that a value becomes.
pub open spec fn encoded(t: WriteTransform, src: Seq<u8>) -> Result<Seq<u8>, CellError> {
    let s = src.take(source_size(t));
    match t {
        WriteTransform::Identity { elem_w, num_elems } => Ok(swapped(s, elem_w as int)),
        WriteTransform::UnsignedXor { elem_w, num_elems } => Ok(
            flipped_units(swapped(s, elem_w as int), elem_w as int),
        ),
        WriteTransform::BoolToLogical { num_bytes } => Ok(logical_letters(s)),
        WriteTransform::BytesCopy { num_bytes } => Ok(s),
        WriteTransform::UnicodeToAscii { num_chars } => match first_wide(s, num_chars as nat) {
            Some(i) => Err(
                CellError::NonAsciiChar {
                    codepoint: codepoint(s, i) as u32,
                    position: i as usize,
                },
            ),
            None => Ok(Seq::new(num_chars as nat, |i: int| codepoint(s, i) as u8)),
        },
        WriteTransform::BitsPackMsb { num_bits } => Ok(packed_bits(s)),
    }
}

/// A cell has the width that is said of it.
pub proof fn lemma_encoded_len(t: WriteTransform, src: Seq<u8>)
    requires
        transform_ok(t),
        source_size(t) <= src.len(),
    ensures
        0 <= source_size(t),
        0 <= stored_size(t),
        encoded(t, src) matches Ok(v) ==> v.len() == stored_size(t),
{
    match t {
        WriteTransform::Identity { elem_w, num_elems } => {
            vstd::arithmetic::mul::lemma_mul_nonnegative(num_elems as int, elem_w as int);
        },
        WriteTransform::UnsignedXor { elem_w, num_elems } => {
            vstd::arithmetic::mul::lemma_mul_nonnegative(num_elems as int, elem_w as int);
        },
        _ => {},
    }
}

fn to_logical(src: &[u8], n: usize) -> (r: Vec<u8>)
    requires
        n <= src@.len(),
    ensures
        r@ == logical_letters(src@.take(n as int)),
{
    let mut r: Vec<u8> = Vec::new();
    let ghost want = logical_letters(src@.take(n as int));
    let mut i: usize = 0;
    while i < n
        invariant
            i <= n <= src@.len(),
            want == logical_letters(src@.take(n as int)),
            r@ == want.take(i as int),
        decreases n - i,
    {
        r.push(
            if src[i] == 0 {
                70
            } else {
                84
            },
        );
        i = i + 1;
        assert(r@ =~= want.take(i as int));
    }
    assert(r@ =~= want);
    r
}

fn to_ascii(src: &[u8], n: usize) -> (r: Result<Vec<u8>, CellError>)
    requires
        4 * n <= src@.len(),
    ensures
        match r {
            Ok(v) => first_wide(src@, n as nat) is None && v@ == Seq::new(
                n as nat,
                |i: int| codepoint(src@, i) as u8,
            ),
            Err(e) => first_wide(src@, n as nat) matches Some(i) && e == (CellError::NonAsciiChar {
                codepoint: codepoint(src@, i) as u32,
                position: i as usize,
            }),
        },
{
    let total: usize = src.len();
    let mut r: Vec<u8> = Vec::new();
    let mut i: usize = 0;
    while i < n
        invariant
            i <= n,
            4 * n <= total == src@.len(),
            first_wide(src@, i as nat) is None,
            r@ == Seq::new(i as nat, |k: int| codepoint(src@, k) as u8),
        decreases n - i,
    {
        let a: u32 = src[4 * i] as u32;
        let b: u32 = src[4 * i + 1] as u32;
        let c: u32 = src[4 * i + 2] as u32;
        let d: u32 = src[4 * i + 3] as u32;
        let cp: u32 = a + 256 * b + 65536 * c + 16777216 * d;
        assert(cp == codepoint(src@, i as int));
        if cp > 0x7f {
            proof {
                assert(first_wide(src@, (i + 1) as nat) == Some(i as int));
                lemma_first_wide(src@, (i + 1) as nat, n as nat);
            }
            return Err(CellError::NonAsciiChar { codepoint: cp, position: i });
        }
        r.push(cp as u8);
        i = i + 1;
        assert(r@ =~= Seq::new(i as nat, |k: int| codepoint(src@, k) as u8));
    }
    Ok(r)
}

fn flip_units(s: &Vec<u8>, w: usize) -> (r: Vec<u8>)
    requires
        w > 0,
    ensures
        r@ == flipped_units(s@, w as int),
{
    let n: usize = s.len();
    let mut r: Vec<u8> = Vec::new();
    let mut i: usize = 0;
    while i < n
        invariant
            i <= n == s@.len(),
            w > 0,
            r@ == flipped_units(s@, w as int).take(i as int),
        decreases n - i,
    {
        let b: u8 = s[i];
        r.push(
            if i % w == 0 {
                b.wrapping_add(128)
            } else {
                b
            },
        );
        i = i + 1;
        assert(r@ =~= flipped_units(s@, w as int).take(i as int));
    }
    assert(r@ =~= flipped_units(s@, w as int));
    r
}

/// Turns a value into its cell.
pub fn apply_transform_cell(t: WriteTransform, src: &[u8]) -> (r: Result<Vec<u8>, CellError>)
    requires
        transform_ok(t),
        source_size(t) <= src@.len(),
    ensures
        match r {
            Ok(v) => encoded(t, src@) == Ok::<Seq<u8>, CellError>(v@) && v@.len() == stored_size(t),
            Err(e) => encoded(t, src@) == Err::<Seq<u8>, CellError>(e),
        },
{
    proof {
        lemma_encoded_len(t, src@);
    }
    let total: usize = src.len();
    match t {
        WriteTransform::Identity { elem_w, num_elems } => {
            let s: Vec<u8> = copy_of(src, 0, num_elems * elem_w);
            assert(s@ =~= src@.take(source_size(t)));
            Ok(swap_units(&s, elem_w))
        },
        WriteTransform::UnsignedXor { elem_w, num_elems } => {
            let s: Vec<u8> = copy_of(src, 0, num_elems * elem_w);
            assert(s@ =~= src@.take(source_size(t)));
            let r: Vec<u8> = swap_units(&s, elem_w);
            Ok(flip_units(&r, elem_w))
        },
        WriteTransform::BoolToLogical { num_bytes } => Ok(to_logical(src, num_bytes)),
        WriteTransform::BytesCopy { num_bytes } => {
            let s: Vec<u8> = copy_of(src, 0, num_bytes);
            assert(s@ =~= src@.take(source_size(t)));
            Ok(s)
        },
        WriteTransform::UnicodeToAscii { num_chars } => {
            assert(4 * num_chars <= total);
            let s: Vec<u8> = copy_of(src, 0, 4 * num_chars);
            assert(s@ =~= src@.take(source_size(t)));
            to_ascii(&s, num_chars)
        },
        WriteTransform::BitsPackMsb { num_bits } => {
            let s: Vec<u8> = copy_of(src, 0, num_bits);
            assert(s@ =~= src@.take(source_size(t)));
            Ok(pack_bits(&s))
        },
    }
}

/// The transform into a column gives cells of the width of the column.
pub proof fn lemma_transform_width(c: ColumnView, kind: char, size: usize)
    requires
        column_ok(c),
        c.var_kind is None,
    ensures
        transform_for(c, kind, size) matches Ok(t) ==> {
            &&& transform_ok(t)
            &&& stored_size(t) == c.byte_width
            &&& !(t is BitsPackMsb) && !(t is UnicodeToAscii) ==> source_size(t) == c.byte_width
        },
{
    match transform_for(c, kind, size) {
        Ok(t) => {
            let w = swap_width(c.letter) as int;
            match element_size(c.letter) {
                Some(e) => {
                    assert(c.byte_width == c.repeat * e);
                    let k = e as int / w;
                    assert(e == k * w);
                    let n = c.repeat as int;
                    assert(n * (k * w) == (n * k) * w) by (nonlinear_arith);
                    vstd::arithmetic::mul::lemma_mul_nonnegative(n, k);
                    lemma_unit_of(n * k, 0, w);
                },
                None => {},
            }
        },
        Err(_) => {},
    }
}

// Reading back -------------------------------------------------------------

/// What is stored of numbers reads back as the numbers.
pub proof fn law_numbers_round_trip(src: Seq<u8>, w: usize, n: usize)
    requires
        w > 0,
        src.len() == n * w,
    ensures
        ({
            let t = WriteTransform::Identity { elem_w: w, num_elems: n };
            encoded(t, src) matches Ok(v) && native(v, w as int, ByteOrder::Little) == src
        }),
{
    assert(src.take(src.len() as int) =~= src);
    law_swap_twice(src, w as int);
}

/// What is stored of unsigned integers reads back as these integers.
pub proof fn law_unsigned_round_trip(src: Seq<u8>, w: usize, n: usize)
    requires
        w > 0,
        src.len() == n * w,
    ensures
        ({
            let t = WriteTransform::UnsignedXor { elem_w: w, num_elems: n };
            encoded(t, src) matches Ok(v) && flipped_cell(v, w as int, n as int, ByteOrder::Little)
                == src
        }),
{
    let t = WriteTransform::UnsignedXor { elem_w: w, num_elems: n };
    let wi = w as int;
    let ni = n as int;
    assert(src.take(src.len() as int) =~= src);
    let v = encoded(t, src)->Ok_0;
    let back = flipped_cell(v, wi, ni, ByteOrder::Little);
    assert(back.len() == src.len());
    assert forall|i: int| 0 <= i < src.len() implies back[i] == src[i] by {
        lemma_unit(i, wi);
        let q = i / wi;
        let k = i % wi;
        if q >= ni {
            lemma_unit_ge(q, ni, wi);
        }
        lemma_unit_below(q, ni, wi);
        let e = unit(v, wi, q);
        lemma_flipped(e);
        let m = wi - 1 - k;
        assert(back[i] == flipped(e).reverse()[k]);
        assert(back[i] == flipped(e)[m]);
        lemma_unit_of(q, m, wi);
        let s = swapped(src, wi);
        assert(e[m] == v[q * wi + m]);
        assert(s[q * wi + m] == src[q * wi + (wi - 1 - m)]);
        if m == 0 {
            assert(v[q * wi] == flip_bit(s[q * wi]));
        } else {
            assert(v[q * wi + m] == s[q * wi + m]);
        }
    }
    assert(back =~= src);
}

/// What is stored of truth values reads back as these values.
pub proof fn law_truth_round_trip(src: Seq<u8>)
    requires
        src.len() <= usize::MAX,
        forall|i: int| 0 <= i < src.len() ==> src[i] == 0 || src[i] == 1,
    ensures
        ({
            let t = WriteTransform::BoolToLogical { num_bytes: src.len() as usize };
            encoded(t, src) matches Ok(v) && truth_values(v) == src
        }),
{
    assert(src.take(src.len() as int) =~= src);
    assert(truth_values(logical_letters(src)) =~= src);
}

/// What is stored of truth values as bits reads back as these values.
pub proof fn law_bits_round_trip(src: Seq<u8>)
    requires
        src.len() <= usize::MAX,
        forall|i: int| 0 <= i < src.len() ==> src[i] == 0 || src[i] == 1,
    ensures
        ({
            let t = WriteTransform::BitsPackMsb { num_bits: src.len() as usize };
            encoded(t, src) matches Ok(v) && unpacked_bits(v, src.len()) == src
        }),
{
    assert(src.take(src.len() as int) =~= src);
    law_unpack_packed(src);
    let flags = Seq::new(src.len(), |i: int| if src[i] != 0 { 1u8 } else { 0u8 });
    assert(flags =~= src);
    assert(unpacked_bits(packed_bits(src), src.len()) == flags);
}

/// The characters of a string, four bytes each, from the lowest byte on.
pub open spec fn wide_text(s: Seq<u8>) -> Seq<u8> {
    Seq::new(4 * s.len(), |i: int| if i % 4 == 0 { s[i / 4] } else { 0u8 })
}

/// What is stored of strings reads back as these strings: their characters are
/// ASCII, none of them ends with a space, and only zeros follow a zero.
pub proof fn law_strings_round_trip(s: Seq<u8>, len: usize)
    requires
        len > 0,
        s.len() <= usize::MAX,
        s.len() as int % len as int == 0,
        forall|i: int| 0 <= i < s.len() ==> s[i] < 128,
        forall|q: int|
            0 <= q < s.len() as int / len as int ==> #[trigger] plain_string(
                unit(s, len as int, q),
            ),
    ensures
        ({
            let t = WriteTransform::UnicodeToAscii { num_chars: s.len() as usize };
            encoded(t, wide_text(s)) matches Ok(v) && string_cell(v, len as int, ByteOrder::Little)
                == Ok::<Seq<u8>, CellError>(wide_text(s))
        }),
{
    let n = s.len();
    let w = wide_text(s);
    let t = WriteTransform::UnicodeToAscii { num_chars: n as usize };
    assert(w.take(4 * n as int) =~= w);
    lemma_wide_codepoints(s);
    lemma_no_wide(w, n);
    let v = encoded(t, w)->Ok_0;
    assert(v =~= s) by {
        assert forall|i: int| 0 <= i < n implies v[i] == s[i] by {
            assert(codepoint(w, i) == s[i]);
        }
    }
    lemma_no_bad(s, len as int, n);
    lemma_wide_back(s, len as int);
}

/// Strings that are stored as bytes read as the same strings of characters.
pub proof fn law_byte_strings_read_as_text(s: Seq<u8>, len: usize)
    requires
        len > 0,
        s.len() as int % len as int == 0,
        forall|i: int| 0 <= i < s.len() ==> s[i] < 128,
        forall|q: int|
            0 <= q < s.len() as int / len as int ==> #[trigger] plain_string(
                unit(s, len as int, q),
            ),
    ensures
        string_cell(s, len as int, ByteOrder::Little) == Ok::<Seq<u8>, CellError>(wide_text(s)),
{
    lemma_no_bad(s, len as int, s.len());
    lemma_wide_back(s, len as int);
}

proof fn lemma_wide_codepoints(s: Seq<u8>)
    ensures
        forall|i: int| 0 <= i < s.len() ==> #[trigger] codepoint(wide_text(s), i) == s[i],
{
    let w = wide_text(s);
    assert forall|i: int| 0 <= i < s.len() implies #[trigger] codepoint(w, i) == s[i] by {
        assert((4 * i) % 4 == 0 && (4 * i) / 4 == i);
        assert((4 * i + 1) % 4 == 1);
        assert((4 * i + 2) % 4 == 2);
        assert((4 * i + 3) % 4 == 3);
        assert(w[4 * i] == s[i]);
        assert(w[4 * i + 1] == 0 && w[4 * i + 2] == 0 && w[4 * i + 3] == 0);
    }
}

proof fn lemma_wide_back(s: Seq<u8>, len: int)
    requires
        len > 0,
        s.len() as int % len == 0,
        forall|q: int|
            0 <= q < s.len() as int / len ==> #[trigger] plain_string(unit(s, len, q)),
    ensures
        wide_strings(s, len, ByteOrder::Little) == wide_text(s),
{
    let back = wide_strings(s, len, ByteOrder::Little);
    let w = wide_text(s);
    assert forall|i: int| 0 <= i < 4 * s.len() implies back[i] == w[i] by {
        let c = i / 4;
        lemma_whole_units(c, s.len() as int, len);
        let u = unit(s, len, c / len);
        assert(plain_string(u));
        assert(u[c % len] == s[c]);
        if char_shown(s, len, c) {
            let e = seq![0u8, 0u8, 0u8, s[c]];
            assert(e.reverse()[i % 4] == e[3 - i % 4]);
        } else {
            assert(u[c % len] == 0);
        }
    }
    assert(back =~= w);
}

/// Whether a string is all that its cell holds: what it does not hold is zero.
pub open spec fn plain_string(u: Seq<u8>) -> bool {
    forall|i: int| string_content(u).len() <= i < u.len() ==> #[trigger] u[i] == 0
}

proof fn lemma_no_wide(s: Seq<u8>, n: nat)
    requires
        forall|i: int| 0 <= i < n ==> #[trigger] codepoint(s, i) < 128,
    ensures
        first_wide(s, n) is None,
    decreases n,
{
    if n > 0 {
        lemma_no_wide(s, (n - 1) as nat);
        assert(codepoint(s, n - 1) < 128);
    }
}

proof fn lemma_no_bad(s: Seq<u8>, len: int, n: nat)
    requires
        n <= s.len(),
        forall|i: int| 0 <= i < s.len() ==> s[i] < 128,
    ensures
        first_bad(s, len, n) is None,
    decreases n,
{
    if n > 0 {
        lemma_no_bad(s, len, (n - 1) as nat);
    }
}

} // verus!
