//! What the texts of headers and the codes of types stand for: the formats of
//! columns that are read, and of those that are made of arrays.

use vstd::prelude::*;

use crate::cells::string_len;
use crate::columns::{
    Descriptor, Letter, cell_bytes, element_size, lemma_product_grows, letter_for, letter_sign,
    opt_text, product,
};
use crate::create::{
    BitColumns, Field, InnerTypes, WriteColumnView, ascii_lower, ascii_lower_text, column_for,
    element_count, fixed_column, inner_code, is_order_mark, lemma_shape_product, shape_product,
};
use crate::encode::transform_for;
use crate::error::{DtypeError, HeaderError, VarError};
use crate::fields::{NumpyType, field_type};
use crate::header::{
    keywords_of, law_descriptor_tform_round_trip, law_fixed_column_reads_back,
    law_tform_round_trip, lemma_trimmed, tform_text,
};
use crate::heap::first_non_ascii;
use crate::heaptrip::lemma_ascii_bytes;
use crate::keywords::{KeywordsView, Tform, before_letter, column_from, tform_pieces};
use crate::text::{
    decimal, first_text, is_letter, law_decimal_parses, lemma_first_text, lemma_first_text_at,
    texts,
};
use crate::types::{lemma_small_decimals, natural, power_bits};
use crate::values::{half_range, integers_of, lemma_ascii};
use crate::vla::{VarInput, var_count};

verus! {

// Formats of columns -------------------------------------------------------

/// Whether a letter in a TFORM stands for an element type.
pub open spec fn stands_for(sign: char, l: Letter) -> bool {
    match l {
        Letter::L => sign == 'L',
        Letter::X => sign == 'X',
        Letter::B => sign == 'B',
        Letter::I => sign == 'I',
        Letter::J => sign == 'J',
        Letter::K => sign == 'K',
        Letter::A => sign == 'A',
        Letter::E => sign == 'E',
        Letter::D => sign == 'D',
        Letter::C => sign == 'C',
        Letter::M => sign == 'M',
    }
}

/// The bytes of `n` elements: whole bytes of bits, one byte for a character, and
/// else as many as an element of an array has.
pub open spec fn bytes_are(l: Letter, n: int, bytes: int) -> bool {
    match l {
        Letter::X => 0 <= bytes && n <= 8 * bytes < n + 8,
        Letter::L | Letter::A | Letter::B => bytes == n,
        Letter::I => bytes == 2 * n,
        Letter::J | Letter::E => bytes == 4 * n,
        Letter::K | Letter::D | Letter::C => bytes == 8 * n,
        Letter::M => bytes == 16 * n,
    }
}

/// The letter of an element type is the one that stands for it, and no other.
pub proof fn law_signs(l: Letter, sign: char)
    ensures
        stands_for(letter_sign(l), l),
        letter_for(sign) == Some(l) <==> stands_for(sign, l),
        letter_for(sign) is None <==> forall|m: Letter| !stands_for(sign, m),
{
    if letter_for(sign) is Some {
        let m = letter_for(sign)->0;
        assert(stands_for(sign, m));
    }
}

/// The bytes of elements are as many as are said of their type.
pub proof fn law_bytes_of_elements(l: Letter, n: nat, bytes: int)
    ensures
        cell_bytes(l, n) == bytes <==> bytes_are(l, n as int, bytes),
{
    let m = n as int;
    match l {
        Letter::X => {},
        Letter::L | Letter::B | Letter::A => {
            assert(element_size(l) == Some(1usize));
            assert(m * 1 == m);
        },
        Letter::I => {
            assert(element_size(l) == Some(2usize));
            assert(m * 2 == 2 * m);
        },
        Letter::J | Letter::E => {
            assert(element_size(l) == Some(4usize));
            assert(m * 4 == 4 * m);
        },
        Letter::K | Letter::D | Letter::C => {
            assert(element_size(l) == Some(8usize));
            assert(m * 8 == 8 * m);
        },
        Letter::M => {
            assert(element_size(l) == Some(16usize));
            assert(m * 16 == 16 * m);
        },
    }
}

/// A TFORM of a count and a letter is a column of so many elements of that type.
pub proof fn law_fixed_format(
    k: KeywordsView,
    l: Letter,
    sign: char,
    n: usize,
    bytes: int,
    column: u64,
    offset: usize,
)
    requires
        stands_for(sign, l),
        bytes_are(l, n as int, bytes),
        k.tform == Some(decimal(n as nat).push(sign)),
        k.tdim is None,
    ensures
        match column_from(k, column, offset) {
            Ok(c) => c.letter == l && c.repeat == n && c.var_kind is None && c.tdim is None
                && c.byte_offset == offset && c.byte_width == bytes,
            Err(e) => e == (HeaderError::WidthOverflow { column }) && bytes > usize::MAX,
        },
{
    law_signs(l, sign);
    law_tform_round_trip(l, n, column);
    assert(tform_text(l, n, None) == decimal(n as nat).push(sign));
    law_bytes_of_elements(l, n as nat, bytes);
    assert(letter_for(sign) == Some(l));
    assert(tform_pieces(k.tform->0, column) == Ok::<Tform, HeaderError>(
        Tform { repeat: n, letter: sign, inner: None },
    ));
}

/// A TFORM without a count is one of a single element.
pub proof fn law_format_without_count(sign: char, column: u64)
    requires
        is_letter(sign),
        sign != 'P',
        sign != 'Q',
    ensures
        tform_pieces(seq![sign], column) == tform_pieces(seq!['1', sign], column),
{
    let a = seq![sign];
    let b = seq!['1', sign];
    lemma_trimmed(a);
    lemma_trimmed(b);
    assert(b.drop_first() =~= a);
    reveal_with_fuel(before_letter, 3);
    assert(before_letter(a) == 0);
    assert(before_letter(b) == 1);
    lemma_small_decimals();
    assert(b.take(1) =~= decimal(1));
    law_decimal_parses(1);
    assert(a.skip(1) =~= Seq::empty());
    assert(b.skip(2) =~= Seq::empty());
}

/// A TFORM of a descriptor is a column of cells in the heap: its cells in the row
/// are two numbers, of 32 bits for P and of 64 bits for Q.
pub proof fn law_heap_format(
    k: KeywordsView,
    l: Letter,
    sign: char,
    q: bool,
    column: u64,
    offset: usize,
)
    requires
        stands_for(sign, l),
        k.tform == Some(
            seq![
                '1',
                if q {
                    'Q'
                } else {
                    'P'
                },
                sign,
            ],
        ),
        k.tdim is None,
    ensures
        column_from(k, column, offset) matches Ok(c) && c.letter == l && c.repeat == 1
            && c.byte_offset == offset && c.byte_width == (if q {
            16
        } else {
            8int
        }) && c.var_kind == Some(
            if q {
                Descriptor::Q
            } else {
                Descriptor::P
            },
        ),
{
    law_signs(l, sign);
    let d = if q {
        Descriptor::Q
    } else {
        Descriptor::P
    };
    law_descriptor_tform_round_trip(l, d, column);
    assert(tform_text(l, 1, Some(d)) =~= k.tform->0);
}

/// What else the keywords of a column say: its name, which is made of its number
/// where there is none, its scale and offset, which are 1 and 0 where there are
/// none, its null value, which counts for integers only, and its unit.
pub proof fn law_other_keywords(k: KeywordsView, column: u64, offset: usize)
    requires
        column_from(k, column, offset) is Ok,
    ensures
        ({
            let c = column_from(k, column, offset)->Ok_0;
            &&& k.ttype is Some ==> c.name == k.ttype->0
            &&& k.ttype is None ==> c.name == seq!['C', 'O', 'L'] + decimal(column as nat)
            &&& c.tscal == if k.tscal is Some {
                k.tscal->0 as int
            } else {
                power_bits(0)
            }
            &&& c.tzero == if k.tzero is Some {
                k.tzero->0
            } else {
                0
            }
            &&& c.tnull == if c.letter is B || c.letter is I || c.letter is J || c.letter is K {
                k.tnull
            } else {
                None
            }
            &&& c.tunit == k.tunit
        }),
{
}

// Codes of types -----------------------------------------------------------

/// Whether a kind and a size are those of an array of numbers that cells in the
/// heap can be.
pub open spec fn heap_kind(kind: char, size: int) -> bool {
    ||| kind == 'u' && size == 1
    ||| kind == 'i' && (size == 2 || size == 4 || size == 8)
    ||| kind == 'f' && (size == 4 || size == 8)
    ||| kind == 'c' && (size == 8 || size == 16)
}

/// The word for a kind of numbers.
pub open spec fn kind_word(kind: char) -> Seq<char> {
    if kind == 'u' {
        seq!['u', 'i', 'n', 't']
    } else if kind == 'i' {
        seq!['i', 'n', 't']
    } else if kind == 'f' {
        seq!['f', 'l', 'o', 'a', 't']
    } else {
        seq!['c', 'o', 'm', 'p', 'l', 'e', 'x']
    }
}

proof fn lemma_code_words()
    ensures
        "u1"@ == seq!['u', '1'],
        "i2"@ == seq!['i', '2'],
        "i4"@ == seq!['i', '4'],
        "i8"@ == seq!['i', '8'],
        "f4"@ == seq!['f', '4'],
        "f8"@ == seq!['f', '8'],
        "c8"@ == seq!['c', '8'],
        "c16"@ == seq!['c', '1', '6'],
        "uint8"@ == seq!['u', 'i', 'n', 't', '8'],
        "int16"@ == seq!['i', 'n', 't', '1', '6'],
        "int32"@ == seq!['i', 'n', 't', '3', '2'],
        "int64"@ == seq!['i', 'n', 't', '6', '4'],
        "float32"@ == seq!['f', 'l', 'o', 'a', 't', '3', '2'],
        "float64"@ == seq!['f', 'l', 'o', 'a', 't', '6', '4'],
        "complex64"@ == seq!['c', 'o', 'm', 'p', 'l', 'e', 'x', '6', '4'],
        "complex128"@ == seq!['c', 'o', 'm', 'p', 'l', 'e', 'x', '1', '2', '8'],
        "?"@ == seq!['?'],
        "b1"@ == seq!['b', '1'],
        "bool"@ == seq!['b', 'o', 'o', 'l'],
        "bool_"@ == seq!['b', 'o', 'o', 'l', '_'],
        "S"@ == seq!['S'],
        "U"@ == seq!['U'],
        "S1"@ == seq!['S', '1'],
        "U1"@ == seq!['U', '1'],
        "A"@ == seq!['A'],
        "a"@ == seq!['a'],
{
    reveal_strlit("u1");
    reveal_strlit("i2");
    reveal_strlit("i4");
    reveal_strlit("i8");
    reveal_strlit("f4");
    reveal_strlit("f8");
    reveal_strlit("c8");
    reveal_strlit("c16");
    reveal_strlit("uint8");
    reveal_strlit("int16");
    reveal_strlit("int32");
    reveal_strlit("int64");
    reveal_strlit("float32");
    reveal_strlit("float64");
    reveal_strlit("complex64");
    reveal_strlit("complex128");
    reveal_strlit("?");
    reveal_strlit("b1");
    reveal_strlit("bool");
    reveal_strlit("bool_");
    reveal_strlit("S");
    reveal_strlit("U");
    reveal_strlit("S1");
    reveal_strlit("U1");
    reveal_strlit("A");
    reveal_strlit("a");
    assert("u1"@ =~= seq!['u', '1']);
    assert("i2"@ =~= seq!['i', '2']);
    assert("i4"@ =~= seq!['i', '4']);
    assert("i8"@ =~= seq!['i', '8']);
    assert("f4"@ =~= seq!['f', '4']);
    assert("f8"@ =~= seq!['f', '8']);
    assert("c8"@ =~= seq!['c', '8']);
    assert("c16"@ =~= seq!['c', '1', '6']);
    assert("uint8"@ =~= seq!['u', 'i', 'n', 't', '8']);
    assert("int16"@ =~= seq!['i', 'n', 't', '1', '6']);
    assert("int32"@ =~= seq!['i', 'n', 't', '3', '2']);
    assert("int64"@ =~= seq!['i', 'n', 't', '6', '4']);
    assert("float32"@ =~= seq!['f', 'l', 'o', 'a', 't', '3', '2']);
    assert("float64"@ =~= seq!['f', 'l', 'o', 'a', 't', '6', '4']);
    assert("complex64"@ =~= seq!['c', 'o', 'm', 'p', 'l', 'e', 'x', '6', '4']);
    assert("complex128"@ =~= seq!['c', 'o', 'm', 'p', 'l', 'e', 'x', '1', '2', '8']);
    assert("?"@ =~= seq!['?']);
    assert("b1"@ =~= seq!['b', '1']);
    assert("bool"@ =~= seq!['b', 'o', 'o', 'l']);
    assert("bool_"@ =~= seq!['b', 'o', 'o', 'l', '_']);
    assert("S"@ =~= seq!['S']);
    assert("U"@ =~= seq!['U']);
    assert("S1"@ =~= seq!['S', '1']);
    assert("U1"@ =~= seq!['U', '1']);
    assert("A"@ =~= seq!['A']);
    assert("a"@ =~= seq!['a']);
}

/// The code of a type, short or long: a kind and its size in bytes, or the word
/// for the kind and its size in bits.
pub open spec fn kind_code(kind: char, size: int, long: bool) -> Seq<char> {
    if long {
        kind_word(kind) + decimal((8 * size) as nat)
    } else {
        seq![kind] + decimal(size as nat)
    }
}

proof fn lemma_kind_code(kind: char, size: int, long: bool)
    requires
        heap_kind(kind, size),
    ensures
        ({
            let code = kind_code(kind, size, long);
            &&& code == if kind == 'u' && long {
                "uint8"@
            } else if kind == 'u' {
                "u1"@
            } else if kind == 'i' && long {
                if size == 2 {
                    "int16"@
                } else if size == 4 {
                    "int32"@
                } else {
                    "int64"@
                }
            } else if kind == 'i' {
                if size == 2 {
                    "i2"@
                } else if size == 4 {
                    "i4"@
                } else {
                    "i8"@
                }
            } else if kind == 'f' && long {
                if size == 4 {
                    "float32"@
                } else {
                    "float64"@
                }
            } else if kind == 'f' {
                if size == 4 {
                    "f4"@
                } else {
                    "f8"@
                }
            } else if long {
                if size == 8 {
                    "complex64"@
                } else {
                    "complex128"@
                }
            } else {
                if size == 8 {
                    "c8"@
                } else {
                    "c16"@
                }
            }
        }),
{
    lemma_code_words();
    lemma_small_decimals();
    let code = kind_code(kind, size, long);
    if kind == 'u' {
        if long {
            assert(code =~= "uint8"@);
        } else {
            assert(code =~= "u1"@);
        }
    } else if kind == 'i' {
        if long {
            if size == 2 {
                assert(code =~= "int16"@);
            } else if size == 4 {
                assert(code =~= "int32"@);
            } else {
                assert(code =~= "int64"@);
            }
        } else {
            if size == 2 {
                assert(code =~= "i2"@);
            } else if size == 4 {
                assert(code =~= "i4"@);
            } else {
                assert(code =~= "i8"@);
            }
        }
    } else if kind == 'f' {
        if long {
            if size == 4 {
                assert(code =~= "float32"@);
            } else {
                assert(code =~= "float64"@);
            }
        } else {
            if size == 4 {
                assert(code =~= "f4"@);
            } else {
                assert(code =~= "f8"@);
            }
        }
    } else {
        if long {
            if size == 8 {
                assert(code =~= "complex64"@);
            } else {
                assert(code =~= "complex128"@);
            }
        } else {
            if size == 8 {
                assert(code =~= "c8"@);
            } else {
                assert(code =~= "c16"@);
            }
        }
    }
}

proof fn lemma_lower_same(s: Seq<char>)
    requires
        forall|i: int| 0 <= i < s.len() ==> !('A' <= #[trigger] s[i] <= 'Z'),
    ensures
        ascii_lower_text(s) == s,
{
    assert(ascii_lower_text(s) =~= s);
}

/// The code of a type of numbers names the element type whose elements are of
/// that kind and size, so that cells of it are arrays of just that type. The
/// codes of truth values name logical elements, and those of strings characters.
pub proof fn law_inner_codes(kind: char, size: int, long: bool)
    ensures
        heap_kind(kind, size) ==> (inner_code(kind_code(kind, size, long)) matches Some(l)
            && natural(l, kind, size)),
        inner_code(seq!['?']) == Some(Letter::L),
        inner_code(seq!['b', '1']) == Some(Letter::L),
        inner_code(seq!['b', 'o', 'o', 'l']) == Some(Letter::L),
        inner_code(seq!['b', 'o', 'o', 'l', '_']) == Some(Letter::L),
        inner_code(seq!['S']) == Some(Letter::A),
        inner_code(seq!['U']) == Some(Letter::A),
        inner_code(seq!['S', '1']) == Some(Letter::A),
        inner_code(seq!['U', '1']) == Some(Letter::A),
        inner_code(seq!['A']) == Some(Letter::A),
        inner_code(seq!['a']) == Some(Letter::A),
{
    lemma_code_words();
    lemma_lower_same("?"@);
    lemma_lower_same("b1"@);
    lemma_lower_same("bool"@);
    lemma_lower_same("bool_"@);
    lemma_distinct("?"@);
    lemma_distinct("b1"@);
    lemma_distinct("bool"@);
    lemma_distinct("bool_"@);
    if heap_kind(kind, size) {
        let code = kind_code(kind, size, long);
        lemma_kind_code(kind, size, long);
        lemma_lower_same(code);
        lemma_distinct(code);
    }
}

/// Words for types that differ in their length or in a character are different.
proof fn lemma_distinct(s: Seq<char>)
    requires
        s.len() > 0,
    ensures
        s == "S"@ ==> s.len() == 1 && s[0] == 'S',
        s == "U"@ ==> s.len() == 1 && s[0] == 'U',
        s == "S1"@ ==> s.len() == 2 && s[0] == 'S',
        s == "U1"@ ==> s.len() == 2 && s[0] == 'U',
        s == "A"@ ==> s.len() == 1 && s[0] == 'A',
        s == "a"@ ==> s.len() == 1 && s[0] == 'a',
        s == "u1"@ ==> s.len() == 2 && s[0] == 'u',
        s == "uint8"@ ==> s.len() == 5 && s[0] == 'u',
        s == "i2"@ ==> s.len() == 2 && s[0] == 'i' && s[1] == '2',
        s == "int16"@ ==> s.len() == 5 && s[0] == 'i' && s[3] == '1',
        s == "i4"@ ==> s.len() == 2 && s[0] == 'i' && s[1] == '4',
        s == "int32"@ ==> s.len() == 5 && s[0] == 'i' && s[3] == '3',
        s == "i8"@ ==> s.len() == 2 && s[0] == 'i' && s[1] == '8',
        s == "int64"@ ==> s.len() == 5 && s[0] == 'i' && s[3] == '6',
        s == "f4"@ ==> s.len() == 2 && s[0] == 'f' && s[1] == '4',
        s == "float32"@ ==> s.len() == 7 && s[0] == 'f' && s[5] == '3',
        s == "f8"@ ==> s.len() == 2 && s[0] == 'f' && s[1] == '8',
        s == "float64"@ ==> s.len() == 7 && s[0] == 'f' && s[5] == '6',
        s == "c8"@ ==> s.len() == 2 && s[0] == 'c',
        s == "complex64"@ ==> s.len() == 9 && s[0] == 'c',
        s == "c16"@ ==> s.len() == 3 && s[0] == 'c',
        s == "complex128"@ ==> s.len() == 10 && s[0] == 'c',
        s == "?"@ ==> s.len() == 1 && s[0] == '?',
        s == "b1"@ ==> s.len() == 2 && s[0] == 'b',
        s == "bool"@ ==> s.len() == 4 && s[0] == 'b',
        s == "bool_"@ ==> s.len() == 5 && s[0] == 'b',
{
    lemma_code_words();
}

/// A mark of byte order before a code changes nothing.
pub proof fn law_order_marks(mark: char, code: Seq<char>)
    requires
        mark == '<' || mark == '>' || mark == '|' || mark == '=',
    ensures
        inner_code(seq![mark] + code) == inner_code(code),
{
    assert((seq![mark] + code).drop_first() =~= code);
}

/// An object of a column in the heap is taken where it is an array of one axis
/// and of just the kind and the size of the elements, and it then has as many
/// elements as that axis. Any other kind or size is refused.
pub proof fn law_heap_cells_taken(l: Letter, kind: char, size: int, c: VarInput)
    requires
        natural(l, kind, size),
    ensures
        match c {
            VarInput::Array { shape, kind: k, itemsize, contiguous, bytes } => if shape@.len() == 1
                && k == kind && itemsize == size && (contiguous || shape@[0] == 0) {
                var_count(c, l) == Ok::<usize, VarError>(shape@[0])
            } else {
                var_count(c, l) is Err
            },
            _ => var_count(c, l) is Err,
        },
{
}

/// Numbers of other sizes have no element type.
pub proof fn law_no_other_codes(kind: char, size: int, long: bool)
    requires
        kind == 'u' || kind == 'i' || kind == 'f' || kind == 'c',
        size == 1 || size == 2 || size == 4 || size == 8 || size == 16,
        !heap_kind(kind, size),
    ensures
        inner_code(kind_code(kind, size, long)) is None,
{
    let code = kind_code(kind, size, long);
    lemma_small_decimals();
    lemma_code_words();
    if long {
        assert(code =~= kind_word(kind) + decimal((8 * size) as nat));
    } else {
        assert(code =~= seq![kind] + decimal(size as nat));
    }
    lemma_lower_same(code);
    if code == "u1"@ {
        assert(code[1] == '1');
    }
    if code == "uint8"@ {
        assert(code[4] == '8');
    }
    if code == "c8"@ {
        assert(code[1] == '8');
    }
    if code == "c16"@ {
        assert(code[1] == '1' && code[2] == '6');
    }
    if code == "complex64"@ {
        assert(code[7] == '6');
    }
    if code == "complex128"@ {
        assert(code[8] == '2');
    }
    if code == "int16"@ || code == "int32"@ || code == "int64"@ {
        assert(code[4] == '6' || code[4] == '2' || code[4] == '4');
    }
    if code == "float32"@ || code == "float64"@ {
        assert(code[6] == '2' || code[6] == '4');
    }
    lemma_distinct(code);
}

/// The codes of numbers are the same in capitals, but for those that start like
/// the code of strings.
pub proof fn law_codes_in_capitals(a: Seq<char>, b: Seq<char>)
    requires
        a.len() == b.len(),
        a.len() > 0,
        b[0] != 'S',
        b[0] != 'U',
        b[0] != 'A',
        !is_order_mark(a[0]),
        !is_order_mark(b[0]),
        forall|i: int|
            0 <= i < a.len() ==> #[trigger] b[i] == a[i] || ('a' <= a[i] <= 'z' && b[i] as int
                == a[i] as int - 32),
        inner_code(a) matches Some(l) && !(l is A),
    ensures
        inner_code(b) == inner_code(a),
{
    lemma_code_words();
    assert forall|i: int| 0 <= i < a.len() implies ascii_lower(a[i]) == #[trigger] ascii_lower(
        b[i],
    ) by {
        if b[i] != a[i] {
            assert('A' <= b[i] <= 'Z');
        }
    }
    assert(ascii_lower_text(a) =~= ascii_lower_text(b));
    lemma_distinct(b);
    lemma_distinct(a);
    if b == "a"@ {
        assert(a =~= "a"@);
    }
}

// Columns of arrays --------------------------------------------------------

/// Whether there are columns for the elements of arrays of a kind and a size.
pub open spec fn has_column(kind: char, size: usize) -> bool {
    ||| kind == 'b' && size == 1
    ||| kind == 'i' && (size == 2 || size == 4 || size == 8)
    ||| kind == 'u' && (size == 1 || size == 2 || size == 4 || size == 8)
    ||| kind == 'f' && (size == 4 || size == 8)
    ||| kind == 'c' && (size == 8 || size == 16)
    ||| kind == 'S' && size > 0
    ||| kind == 'U' && size > 0 && size % 4 == 0
}

/// Whether a column is one for elements of a kind and a size, `count` of them in
/// a cell: unsigned integers of more than a byte are stored as signed ones of the
/// same size with an offset of half of their range, strings as characters, and
/// all others as they are.
pub open spec fn column_for_kind(c: WriteColumnView, kind: char, size: usize, count: int) -> bool {
    if kind == 'S' || kind == 'U' {
        &&& c.letter is A
        &&& c.repeat == (if kind == 'S' {
            size as int
        } else {
            size as int / 4
        }) * count
        &&& c.byte_width == c.repeat
        &&& c.tzero is None
    } else {
        &&& c.repeat == count
        &&& c.byte_width == count * size
        &&& if kind == 'u' && size > 1 {
            integers_of(c.letter, size as int) && c.tzero is Some && c.tzero->0 == half_range(
                size as int,
            )
        } else {
            natural(c.letter, kind, size as int) && !(c.letter is X) && c.tzero is None
        }
    }
}

/// The column that an array of fixed-width elements becomes is one for just
/// these elements, and there is one unless the format has none for them or a row
/// would be too wide.
pub proof fn law_new_column(
    name: Seq<char>,
    kind: char,
    size: usize,
    shape: Seq<usize>,
    unit: Option<Seq<char>>,
)
    requires
        forall|i: int| 0 <= i < shape.len() ==> shape[i] > 0,
    ensures
        match fixed_column(name, kind, size, shape, unit, false) {
            Ok(c) => has_column(kind, size) && c.name == name && c.tunit == unit && c.var_kind
                is None && column_for_kind(c, kind, size, product(shape) as int),
            Err(e) => !has_column(kind, size) || (e == DtypeError::TooLarge && product(shape)
                * size > usize::MAX),
        },
{
    lemma_axes(shape);
    let p = product(shape) as int;
    let s = size as int;
    if has_column(kind, size) {
        if kind == 'S' || kind == 'U' {
            let l = if kind == 'S' {
                s
            } else {
                s / 4
            };
            assert(p * s >= p * l) by (nonlinear_arith)
                requires
                    p >= 0,
                    s >= l,
            ;
            assert(p * l == l * p) by (nonlinear_arith);
        }
        assert(p * s >= p) by (nonlinear_arith)
            requires
                p >= 0,
                s >= 1,
        ;
        assert(p * s == s * p) by (nonlinear_arith);
    }
}

pub proof fn lemma_axes(d: Seq<usize>)
    requires
        forall|i: int| 0 <= i < d.len() ==> d[i] > 0,
    ensures
        product(d) >= 1,
        match element_count(d) {
            Some(n) => n == product(d),
            None => product(d) > usize::MAX,
        },
    decreases d.len(),
{
    lemma_product_grows(d, 0);
    if shape_product(d) is Some {
        lemma_shape_product(d);
    } else {
        let c = d.drop_last();
        lemma_axes(c);
        let p = product(c) as int;
        let l = d.last() as int;
        assert(p * l >= p) by (nonlinear_arith)
            requires
                p >= 0,
                l >= 1,
        ;
        if shape_product(c) is Some {
            lemma_shape_product(c);
        }
    }
}

/// Truth values that are asked for as bits become bits, eight to a byte. Nothing
/// else can be asked for as bits.
pub proof fn law_new_bits(
    name: Seq<char>,
    kind: char,
    size: usize,
    shape: Seq<usize>,
    unit: Option<Seq<char>>,
)
    requires
        forall|i: int| 0 <= i < shape.len() ==> shape[i] > 0,
    ensures
        match fixed_column(name, kind, size, shape, unit, true) {
            Ok(c) => kind == 'b' && size == 1 && c.letter is X && c.repeat == product(shape)
                && c.tzero is None && bytes_are(
                Letter::X,
                product(shape) as int,
                c.byte_width as int,
            ),
            Err(e) => kind != 'b' || size != 1 || (e == DtypeError::TooLarge && product(shape)
                > usize::MAX),
        },
{
    lemma_axes(shape);
}

/// A column that was made for elements of a kind and a size takes just such
/// elements, once its header has been read.
pub proof fn law_new_column_takes(
    name: Seq<char>,
    kind: char,
    size: usize,
    shape: Seq<usize>,
    unit: Option<Seq<char>>,
    column: u64,
    offset: usize,
)
    requires
        forall|i: int| 0 <= i < shape.len() ==> shape[i] > 0,
        fixed_column(name, kind, size, shape, unit, false) is Ok,
    ensures
        column_from(
            keywords_of(fixed_column(name, kind, size, shape, unit, false)->Ok_0),
            column,
            offset,
        ) matches Ok(c) && transform_for(c, kind, size) is Ok,
{
    let w = fixed_column(name, kind, size, shape, unit, false)->Ok_0;
    law_fixed_column_reads_back(name, kind, size, shape, unit, false, column, offset);
    law_new_column(name, kind, size, shape, unit);
    let c = column_from(keywords_of(w), column, offset)->Ok_0;
    if kind == 'S' || kind == 'U' {
        assert(field_type(c, true) == Some(NumpyType::Text(string_len(c))));
    }
}

/// The column that objects become: its cells are made of the type that is said of
/// its name, and its rows hold descriptors of two numbers each. Only truth values
/// whose name is asked for as bits are made of something else, of bits.
pub proof fn law_object_column(
    f: Field,
    upper: Seq<char>,
    t: InnerTypes,
    bits: Option<BitColumns>,
    descriptor: Descriptor,
    i: int,
    kind: char,
    size: int,
    long: bool,
)
    requires
        f.kind == 'O',
        f.shape@.len() == 0,
        0 <= i < t.names@.len(),
        t.names@[i]@ == f.name@,
        forall|j: int| 0 <= j < i ==> (#[trigger] t.names@[j])@ != f.name@,
        t.codes@[i] is Some,
        (heap_kind(kind, size) && t.codes@[i]->0@ == kind_code(kind, size, long)) || (kind == 'b'
            && size == 1 && t.codes@[i]->0@ == seq!['?']),
    ensures
        column_for(f, upper, Some(t), bits, descriptor) matches Ok(c) && c.name == f.name@
            && natural(c.letter, kind, size) && c.repeat == 1 && c.var_kind == Some(descriptor)
            && c.byte_width == (match descriptor {
            Descriptor::P => 8int,
            Descriptor::Q => 16,
        }) && c.tunit == opt_text(f.unit) && c.tzero is None && c.tdim is None && (c.letter is X
            <==> kind == 'b' && bits is Some && (bits->0 matches BitColumns::Names(names)
            && exists|j: int| 0 <= j < names@.len() && (#[trigger] names@[j])@ == upper)),
{
    law_inner_codes(kind, size, long);
    let names = texts(t.names@);
    assert(names[i] == f.name@);
    assert forall|j: int| 0 <= j < i implies names[j] != f.name@ by {
        assert(t.names@[j]@ != f.name@);
    }
    lemma_first_text_at(names, f.name@, i);
    if let Some(BitColumns::Names(list)) = bits {
        let s = texts(list@);
        lemma_first_text(s, upper);
        if first_text(s, upper) is None {
            assert forall|j: int| 0 <= j < list@.len() implies (#[trigger] list@[j])@ != upper by {
                assert(s[j] == list@[j]@);
            }
        } else {
            let j = first_text(s, upper)->0;
            assert(s[j] == list@[j]@);
        }
    }
}

/// A string for a column of strings in the heap is taken where it is ASCII, with
/// as many elements as it has characters; bytes are taken as they are, and arrays
/// are refused.
pub proof fn law_heap_strings_taken(c: VarInput)
    ensures
        match c {
            VarInput::Bytes(b) => b@.len() <= usize::MAX ==> var_count(c, Letter::A) == Ok::<
                usize,
                VarError,
            >(b@.len() as usize),
            VarInput::Text(s) => if forall|i: int|
                0 <= i < s@.len() ==> '\0' <= #[trigger] s@[i] <= '\u{7f}' {
                var_count(c, Letter::A) == Ok::<usize, VarError>(s@.len() as usize)
            } else {
                var_count(c, Letter::A) is Err
            },
            _ => var_count(c, Letter::A) is Err,
        },
{
    if let VarInput::Text(s) = c {
        let b = vstd::utf8::encode_utf8(s@);
        lemma_ascii(b);
        if vstd::utf8::is_ascii_chars(s@) {
            vstd::utf8::is_ascii_chars_encode_utf8(s@);
        } else if first_non_ascii(b) is None {
            lemma_ascii_bytes(s@);
        }
    }
}

} // verus!
