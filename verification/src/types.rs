//! What element types are for the arrays that hold them: kinds and sizes, as the
//! columns of a file are read, made and written.

use vstd::prelude::*;

use crate::cells::value_width;
use crate::columns::{
    ColumnView, Letter, ScalingKind, column_ok, lemma_product_one, lemma_product_reverse, product,
};
use crate::fields::{NumpyType, cell_shape, field_type, read_scaling, scaled_type, type_code};
use crate::text::decimal;
use crate::values::{integers_of, string_size};

verus! {

// Types of arrays ----------------------------------------------------------

/// The kind of the elements of an array.
pub open spec fn type_kind(t: NumpyType) -> char {
    match t {
        NumpyType::Bool => 'b',
        NumpyType::I1 | NumpyType::I2 | NumpyType::I4 | NumpyType::I8 => 'i',
        NumpyType::U1 | NumpyType::U2 | NumpyType::U4 | NumpyType::U8 => 'u',
        NumpyType::F4 | NumpyType::F8 => 'f',
        NumpyType::C8 | NumpyType::C16 => 'c',
        NumpyType::Text(_) => 'U',
        NumpyType::Bytes(_) => 'S',
        NumpyType::Object => 'O',
    }
}

/// The bytes of an element of an array. A character of a text takes four.
pub open spec fn type_size(t: NumpyType) -> int {
    match t {
        NumpyType::Bool | NumpyType::I1 | NumpyType::U1 => 1,
        NumpyType::I2 | NumpyType::U2 => 2,
        NumpyType::I4 | NumpyType::U4 | NumpyType::F4 => 4,
        NumpyType::I8 | NumpyType::U8 | NumpyType::F8 | NumpyType::C8 => 8,
        NumpyType::C16 => 16,
        NumpyType::Text(n) => 4 * n,
        NumpyType::Bytes(n) => n as int,
        NumpyType::Object => 8,
    }
}

pub proof fn lemma_small_decimals()
    ensures
        decimal(1) == seq!['1'],
        decimal(2) == seq!['2'],
        decimal(4) == seq!['4'],
        decimal(8) == seq!['8'],
        decimal(16) == seq!['1', '6'],
        decimal(32) == seq!['3', '2'],
        decimal(64) == seq!['6', '4'],
        decimal(128) == seq!['1', '2', '8'],
{
    reveal_with_fuel(decimal, 4);
    assert(decimal(16) =~= seq!['1', '6']);
    assert(decimal(32) =~= seq!['3', '2']);
    assert(decimal(64) =~= seq!['6', '4']);
    assert(decimal(128) =~= seq!['1', '2', '8']);
}

/// The code of a type of numbers is its kind and its size in bytes; of strings
/// it is their kind and their length in characters.
pub proof fn law_type_code(t: NumpyType)
    ensures
        match t {
            NumpyType::Bool => type_code(t) == seq!['?'],
            NumpyType::Object => type_code(t) == seq!['O'],
            NumpyType::Text(n) => type_code(t) == seq!['U'] + decimal(n as nat),
            _ => type_code(t) == seq![type_kind(t)] + decimal(type_size(t) as nat),
        },
{
    lemma_small_decimals();
    match t {
        NumpyType::Bool | NumpyType::Object | NumpyType::Text(_) | NumpyType::Bytes(_) => {},
        _ => {
            assert(type_code(t) =~= seq![type_kind(t)] + decimal(type_size(t) as nat));
        },
    }
}

/// Whether the elements of a type are in arrays of a kind and of so many bytes
/// each, where nothing is scaled.
pub open spec fn natural(l: Letter, kind: char, size: int) -> bool {
    match l {
        Letter::L | Letter::X => kind == 'b' && size == 1,
        Letter::B => kind == 'u' && size == 1,
        Letter::I => kind == 'i' && size == 2,
        Letter::J => kind == 'i' && size == 4,
        Letter::K => kind == 'i' && size == 8,
        Letter::E => kind == 'f' && size == 4,
        Letter::D => kind == 'f' && size == 8,
        Letter::C => kind == 'c' && size == 8,
        Letter::M => kind == 'c' && size == 16,
        Letter::A => false,
    }
}

// Scaling ------------------------------------------------------------------

/// The bits of the 64-bit float that is 2 to the power of `k`: its biased
/// exponent above 52 bits of zero.
pub open spec fn power_bits(k: int) -> int {
    (1023 + k) * 0x10_0000_0000_0000
}

/// The sign bit of a 64-bit float.
pub open spec fn sign_bit() -> int {
    0x8000_0000_0000_0000
}

/// Whether TSCAL is one and TZERO is zero, of either sign.
pub open spec fn is_plain(tscal: u64, tzero: u64) -> bool {
    tscal == power_bits(0) && (tzero == 0 || tzero == sign_bit())
}

/// Whether TSCAL is one and TZERO is the offset that gives integers the other
/// signedness: half of their range, and -128 for bytes.
pub open spec fn is_other_sign(l: Letter, tscal: u64, tzero: u64) -> bool {
    tscal == power_bits(0) && match l {
        Letter::B => tzero == sign_bit() + power_bits(7),
        Letter::I => tzero == power_bits(15),
        Letter::J => tzero == power_bits(31),
        Letter::K => tzero == power_bits(63),
        _ => false,
    }
}

/// How a column is read. Unless scaled values are asked for, and where TSCAL and
/// TZERO change nothing, its elements are read as they are stored; so are truth
/// values and bits in any case. With the offset of the other signedness they are
/// integers of the same size and that signedness. All else becomes floats of 64
/// bits, but for complex numbers, which cannot be scaled.
pub proof fn law_read_type(c: ColumnView, scale: bool, kind: char, size: int)
    requires
        c.var_kind is None,
        natural(c.letter, kind, size),
    ensures
        ({
            let t = field_type(c, scale);
            let how = read_scaling(c, scale);
            if !scale || is_plain(c.tscal, c.tzero) || c.letter is L || c.letter is X {
                t is Some && type_kind(t->0) == kind && type_size(t->0) == size && how == Some(
                    ScalingKind::Unscaled,
                )
            } else if is_other_sign(c.letter, c.tscal, c.tzero) {
                t is Some && type_size(t->0) == size && type_kind(t->0) == (if kind == 'u' {
                    'i'
                } else {
                    'u'
                }) && how == Some(ScalingKind::UnsignedTrick)
            } else if kind == 'c' {
                t is None && how is None
            } else {
                t is Some && type_kind(t->0) == 'f' && type_size(t->0) == 8 && how == Some(
                    ScalingKind::General,
                )
            }
        }),
{
}

/// Strings are read as strings of as many characters as they have bytes, and are
/// never scaled. Cells in the heap are objects.
pub proof fn law_read_text_type(c: ColumnView, scale: bool)
    ensures
        c.var_kind is None && c.letter is A ==> field_type(c, scale) == Some(
            NumpyType::Text(string_size(c) as usize),
        ),
        c.letter is A ==> read_scaling(c, scale) == Some(ScalingKind::Unscaled),
        c.var_kind is Some ==> field_type(c, scale) == Some(NumpyType::Object),
{
}

/// The elements of a cell in the heap are of the same type as those of a row.
pub proof fn law_heap_type(l: Letter, kind: char, size: int)
    requires
        natural(l, kind, size),
    ensures
        ({
            let t = scaled_type(l, ScalingKind::Unscaled);
            type_kind(t) == kind && type_size(t) == size
        }),
        integers_of(l, size) ==> ({
            let t = scaled_type(l, ScalingKind::UnsignedTrick);
            type_size(t) == size && type_kind(t) == (if kind == 'u' {
                'i'
            } else {
                'u'
            })
        }),
        ({
            let t = scaled_type(l, ScalingKind::General);
            type_kind(t) == 'f' && type_size(t) == 8
        }),
{
}

// Shapes -------------------------------------------------------------------

/// The shape of the cells of a column is its dimensions, the slowest first; of
/// strings the first dimension is their length. Without dimensions, more than
/// one element is one axis of so many.
pub proof fn law_cell_shape(c: ColumnView, j: int)
    requires
        column_ok(c),
        c.var_kind is None,
    ensures
        ({
            let s = cell_shape(c);
            match c.tdim {
                Some(d) => {
                    let axes = if c.letter is A {
                        d.len() - 1
                    } else {
                        d.len() as int
                    };
                    s.len() == axes && (0 <= j < axes ==> s[j] == d[d.len() - 1 - j])
                },
                None => if c.letter is A || c.repeat <= 1 {
                    s.len() == 0
                } else {
                    s.len() == 1 && s[0] == c.repeat
                },
            }
        }),
{
}

/// The value of a cell fills its shape: it has as many bytes as an array of that
/// shape and of the type that the column is read into.
pub proof fn law_value_fills_shape(c: ColumnView, scale: bool)
    requires
        column_ok(c),
        c.var_kind is None,
        c.repeat > 0,
        field_type(c, scale) is Some,
    ensures
        value_width(c, read_scaling(c, scale)->0) == product(cell_shape(c)) * type_size(
            field_type(c, scale)->0,
        ),
{
    let p = product(cell_shape(c)) as int;
    crate::input::lemma_cell_elements(c);
    let n = c.repeat as int;
    if c.letter is A {
        let l = string_size(c);
        assert(4 * (l * p) == p * (4 * l)) by (nonlinear_arith);
    } else {
        match c.tdim {
            Some(d) => {
                lemma_product_reverse(d);
            },
            None => {
                if n > 1 {
                    lemma_product_one(c.repeat);
                }
            },
        }
        assert(p == n);
        assert(n * 8 == 8 * n);
        assert(n * 1 == n);
    }
}

} // verus!
