//! From the fields of an array to the columns and the header of a new table.

use vstd::prelude::*;

use crate::bytes::{bit_bytes, bit_bytes_of};
use crate::columns::{
    Descriptor, Letter, copy_opt_text, descriptor_bytes, descriptor_size, opt_text, product,
};
use crate::error::{CreateError, DtypeError};
use crate::text::{
    chars_of, decimal, decimal_of, first_text, position_of, same_chars, string_of, texts,
    to_uppercase, uppercase,
};

verus! {

// Fields and columns -------------------------------------------------------

/// A field of an array: its name, the kind and the size of its elements, and
/// the shape of its cells.
#[derive(Debug)]
pub struct Field {
    pub name: String,
    pub kind: char,
    pub itemsize: usize,
    pub shape: Vec<usize>,
    /// The unit of the column.
    pub unit: Option<String>,
}

/// Which fields of truth values become columns of bits.
#[derive(Debug)]
pub enum BitColumns {
    /// All of them.
    All,
    /// The ones with these names, which are in upper case.
    Names(Vec<String>),
}

/// What the cells of a field of objects are made of: names of fields, and the
/// codes of types where these are texts.
#[derive(Debug)]
pub struct InnerTypes {
    pub names: Vec<String>,
    pub codes: Vec<Option<String>>,
}

/// A column to be made. In a column of descriptors `letter` is the type of the
/// elements in the heap and `repeat` is 1.
#[derive(Debug)]
pub struct WriteColumn {
    pub name: String,
    pub letter: Letter,
    pub repeat: usize,
    pub byte_width: usize,
    pub tzero: Option<u64>,
    pub tdim: Option<String>,
    pub tunit: Option<String>,
    pub var_kind: Option<Descriptor>,
}

/// A column to be made, with its texts as sequences.
pub struct WriteColumnView {
    pub name: Seq<char>,
    pub letter: Letter,
    pub repeat: usize,
    pub byte_width: usize,
    pub tzero: Option<u64>,
    pub tdim: Option<Seq<char>>,
    pub tunit: Option<Seq<char>>,
    pub var_kind: Option<Descriptor>,
}

impl View for WriteColumn {
    type V = WriteColumnView;

    open spec fn view(&self) -> WriteColumnView {
        WriteColumnView {
            name: self.name@,
            letter: self.letter,
            repeat: self.repeat,
            byte_width: self.byte_width,
            tzero: self.tzero,
            tdim: opt_text(self.tdim),
            tunit: opt_text(self.tunit),
            var_kind: self.var_kind,
        }
    }
}

/// The views of a list of columns to be made.
pub open spec fn write_views(cols: Seq<WriteColumn>) -> Seq<WriteColumnView> {
    Seq::new(cols.len(), |i: int| cols[i]@)
}

/// The names of fields.
pub open spec fn field_names(f: Seq<Field>) -> Seq<Seq<char>> {
    Seq::new(f.len(), |i: int| f[i].name@)
}

// Element types ------------------------------------------------------------

/// What an element type becomes in a column.
#[derive(Clone, Copy, PartialEq, Eq, Structural, Debug)]
pub struct ScalarClass {
    pub letter: Letter,
    pub elem_bytes: usize,
    pub tzero: Option<u64>,
    /// The characters of one string.
    pub chars: Option<usize>,
}

/// A numeric or logical element.
pub open spec fn plain_class(letter: Letter, elem_bytes: usize, tzero: Option<u64>) -> Result<
    ScalarClass,
    DtypeError,
> {
    Ok(ScalarClass { letter, elem_bytes, tzero, chars: None })
}

/// Strings of `n` characters.
pub open spec fn string_class(n: usize) -> Result<ScalarClass, DtypeError> {
    Ok(ScalarClass { letter: Letter::A, elem_bytes: 1, tzero: None, chars: Some(n) })
}

/// What an element of a kind and a size becomes in a column. Unsigned integers
/// are stored as signed ones with an offset.
pub open spec fn scalar_class(kind: char, size: usize, bits: bool) -> Result<
    ScalarClass,
    DtypeError,
> {
    if bits {
        if kind == 'b' && size == 1 {
            plain_class(Letter::X, 1, None)
        } else {
            Err(DtypeError::BitsNeedBool)
        }
    } else if kind == 'i' && size == 2 {
        plain_class(Letter::I, 2, None)
    } else if kind == 'i' && size == 4 {
        plain_class(Letter::J, 4, None)
    } else if kind == 'i' && size == 8 {
        plain_class(Letter::K, 8, None)
    } else if kind == 'u' && size == 1 {
        plain_class(Letter::B, 1, None)
    } else if kind == 'u' && size == 2 {
        plain_class(Letter::I, 2, Some(0x8000))
    } else if kind == 'u' && size == 4 {
        plain_class(Letter::J, 4, Some(0x8000_0000))
    } else if kind == 'u' && size == 8 {
        plain_class(Letter::K, 8, Some(0x8000_0000_0000_0000))
    } else if kind == 'f' && size == 4 {
        plain_class(Letter::E, 4, None)
    } else if kind == 'f' && size == 8 {
        plain_class(Letter::D, 8, None)
    } else if kind == 'c' && size == 8 {
        plain_class(Letter::C, 8, None)
    } else if kind == 'c' && size == 16 {
        plain_class(Letter::M, 16, None)
    } else if kind == 'b' && size == 1 {
        plain_class(Letter::L, 1, None)
    } else if kind == 'S' && size > 0 {
        string_class(size)
    } else if kind == 'U' && size > 0 && size % 4 == 0 {
        string_class((size / 4) as usize)
    } else if (kind == 'S' || kind == 'U') && size == 0 {
        Err(DtypeError::ZeroLengthString)
    } else if kind == 'i' && size == 1 {
        Err(DtypeError::Int8)
    } else if kind == 'f' && size == 2 {
        Err(DtypeError::Float16)
    } else {
        Err(DtypeError::Unsupported)
    }
}

fn plain(letter: Letter, elem_bytes: usize, tzero: Option<u64>) -> (r: Result<
    ScalarClass,
    DtypeError,
>)
    ensures
        r == plain_class(letter, elem_bytes, tzero),
{
    Ok(ScalarClass { letter, elem_bytes, tzero, chars: None })
}

/// What an element of a kind and a size becomes in a column.
pub fn classify_scalar_numpy_field(kind: char, size: usize, bits: bool) -> (r: Result<
    ScalarClass,
    DtypeError,
>)
    ensures
        r == scalar_class(kind, size, bits),
{
    if bits {
        if kind != 'b' || size != 1 {
            return Err(DtypeError::BitsNeedBool);
        }
        return plain(Letter::X, 1, None);
    }
    match kind {
        'i' => match size {
            2 => plain(Letter::I, 2, None),
            4 => plain(Letter::J, 4, None),
            8 => plain(Letter::K, 8, None),
            1 => Err(DtypeError::Int8),
            _ => Err(DtypeError::Unsupported),
        },
        'u' => match size {
            1 => plain(Letter::B, 1, None),
            2 => plain(Letter::I, 2, Some(0x8000)),
            4 => plain(Letter::J, 4, Some(0x8000_0000)),
            8 => plain(Letter::K, 8, Some(0x8000_0000_0000_0000)),
            _ => Err(DtypeError::Unsupported),
        },
        'f' => match size {
            4 => plain(Letter::E, 4, None),
            8 => plain(Letter::D, 8, None),
            2 => Err(DtypeError::Float16),
            _ => Err(DtypeError::Unsupported),
        },
        'c' => match size {
            8 => plain(Letter::C, 8, None),
            16 => plain(Letter::M, 16, None),
            _ => Err(DtypeError::Unsupported),
        },
        'b' => if size == 1 {
            plain(Letter::L, 1, None)
        } else {
            Err(DtypeError::Unsupported)
        },
        'S' => if size == 0 {
            Err(DtypeError::ZeroLengthString)
        } else {
            Ok(ScalarClass { letter: Letter::A, elem_bytes: 1, tzero: None, chars: Some(size) })
        },
        'U' => if size == 0 {
            Err(DtypeError::ZeroLengthString)
        } else if size % 4 == 0 {
            Ok(ScalarClass { letter: Letter::A, elem_bytes: 1, tzero: None, chars: Some(size / 4) })
        } else {
            Err(DtypeError::Unsupported)
        },
        _ => Err(DtypeError::Unsupported),
    }
}

/// Whether a character is a mark of byte order at the start of a type code.
pub open spec fn is_order_mark(c: char) -> bool {
    c == '<' || c == '>' || c == '|' || c == '='
}

/// A type code without the marks of byte order at its start.
pub open spec fn unmarked(s: Seq<char>) -> Seq<char>
    decreases s.len(),
{
    if s.len() > 0 && is_order_mark(s[0]) {
        unmarked(s.drop_first())
    } else {
        s
    }
}

/// An ASCII letter in lower case; any other character as it is.
pub open spec fn ascii_lower(c: char) -> char {
    if 'A' <= c <= 'Z' {
        (c as u8 + 32) as char
    } else {
        c
    }
}

/// The text with its ASCII letters in lower case.
pub open spec fn ascii_lower_text(s: Seq<char>) -> Seq<char> {
    Seq::new(s.len(), |i: int| ascii_lower(s[i]))
}

/// The element type that a type code names for cells in the heap.
pub open spec fn inner_code(code: Seq<char>) -> Option<Letter> {
    let s = unmarked(code);
    let t = ascii_lower_text(s);
    if s == "S"@ || s == "U"@ || s == "S1"@ || s == "U1"@ || s == "A"@ || s == "a"@ {
        Some(Letter::A)
    } else if t == "u1"@ || t == "uint8"@ {
        Some(Letter::B)
    } else if t == "i2"@ || t == "int16"@ {
        Some(Letter::I)
    } else if t == "i4"@ || t == "int32"@ {
        Some(Letter::J)
    } else if t == "i8"@ || t == "int64"@ {
        Some(Letter::K)
    } else if t == "f4"@ || t == "float32"@ {
        Some(Letter::E)
    } else if t == "f8"@ || t == "float64"@ {
        Some(Letter::D)
    } else if t == "c8"@ || t == "complex64"@ {
        Some(Letter::C)
    } else if t == "c16"@ || t == "complex128"@ {
        Some(Letter::M)
    } else if t == "?"@ || t == "b1"@ || t == "bool"@ || t == "bool_"@ {
        Some(Letter::L)
    } else {
        None
    }
}

fn is_word(c: &Vec<char>, w: &str) -> (r: bool)
    ensures
        r == (c@ == w@),
{
    let d: Vec<char> = chars_of(w);
    same_chars(c, &d)
}

fn without_marks(c: &Vec<char>) -> (r: Vec<char>)
    ensures
        r@ == unmarked(c@),
{
    let n: usize = c.len();
    let mut a: usize = 0;
    assert(c@.subrange(0, n as int) =~= c@);
    while a < n && (c[a] == '<' || c[a] == '>' || c[a] == '|' || c[a] == '=')
        invariant
            a <= n == c@.len(),
            unmarked(c@) == unmarked(c@.subrange(a as int, n as int)),
        decreases n - a,
    {
        proof {
            let t = c@.subrange(a as int, n as int);
            assert(t[0] == c@[a as int]);
            assert(t.drop_first() =~= c@.subrange(a + 1, n as int));
        }
        a = a + 1;
    }
    proof {
        let t = c@.subrange(a as int, n as int);
        assert(a < n ==> t[0] == c@[a as int]);
    }
    crate::text::part_of(c, a, n)
}

fn to_ascii_lower(s: &Vec<char>) -> (r: Vec<char>)
    ensures
        r@ == ascii_lower_text(s@),
{
    let n: usize = s.len();
    let mut r: Vec<char> = Vec::new();
    let mut i: usize = 0;
    while i < n
        invariant
            i <= n == s@.len(),
            r@ == ascii_lower_text(s@).take(i as int),
        decreases n - i,
    {
        let c: char = s[i];
        r.push(
            if 'A' <= c && c <= 'Z' {
                (c as u8 + 32) as char
            } else {
                c
            },
        );
        i = i + 1;
        assert(r@ =~= ascii_lower_text(s@).take(i as int));
    }
    assert(r@ =~= ascii_lower_text(s@));
    r
}

/// The element type that a type code names for cells in the heap.
pub fn classify_var_numpy_field(code: &str) -> (r: Option<Letter>)
    ensures
        r == inner_code(code@),
{
    let c: Vec<char> = chars_of(code);
    let s: Vec<char> = without_marks(&c);
    if is_word(&s, "S") || is_word(&s, "U") || is_word(&s, "S1") || is_word(&s, "U1") || is_word(
        &s,
        "A",
    ) || is_word(&s, "a") {
        return Some(Letter::A);
    }
    let t: Vec<char> = to_ascii_lower(&s);
    if is_word(&t, "u1") || is_word(&t, "uint8") {
        Some(Letter::B)
    } else if is_word(&t, "i2") || is_word(&t, "int16") {
        Some(Letter::I)
    } else if is_word(&t, "i4") || is_word(&t, "int32") {
        Some(Letter::J)
    } else if is_word(&t, "i8") || is_word(&t, "int64") {
        Some(Letter::K)
    } else if is_word(&t, "f4") || is_word(&t, "float32") {
        Some(Letter::E)
    } else if is_word(&t, "f8") || is_word(&t, "float64") {
        Some(Letter::D)
    } else if is_word(&t, "c8") || is_word(&t, "complex64") {
        Some(Letter::C)
    } else if is_word(&t, "c16") || is_word(&t, "complex128") {
        Some(Letter::M)
    } else if is_word(&t, "?") || is_word(&t, "b1") || is_word(&t, "bool") || is_word(&t, "bool_") {
        Some(Letter::L)
    } else {
        None
    }
}

// Shapes -------------------------------------------------------------------

/// The product of the axes of a shape from left to right, or `None` once it is
/// beyond `usize`.
pub open spec fn shape_product(d: Seq<usize>) -> Option<usize>
    decreases d.len(),
{
    if d.len() == 0 {
        Some(1)
    } else {
        match shape_product(d.drop_last()) {
            None => None,
            Some(p) => if p * d.last() > usize::MAX {
                None
            } else {
                Some((p * d.last()) as usize)
            },
        }
    }
}

proof fn lemma_shape_prefix(d: Seq<usize>, k: int)
    requires
        0 <= k <= d.len(),
        shape_product(d.take(k)) is None,
    ensures
        shape_product(d) is None,
    decreases d.len(),
{
    if k < d.len() {
        assert(d.drop_last().take(k) =~= d.take(k));
        lemma_shape_prefix(d.drop_last(), k);
    } else {
        assert(d.take(k) =~= d);
    }
}

/// The product of the axes of a shape.
pub fn shape_product_of(d: &Vec<usize>) -> (r: Option<usize>)
    ensures
        r == shape_product(d@),
{
    let n: usize = d.len();
    let mut p: usize = 1;
    let mut i: usize = 0;
    assert(d@.take(0) =~= Seq::empty());
    while i < n
        invariant
            i <= n == d@.len(),
            shape_product(d@.take(i as int)) == Some(p),
        decreases n - i,
    {
        proof {
            assert(d@.take(i + 1).drop_last() =~= d@.take(i as int));
        }
        match p.checked_mul(d[i]) {
            None => {
                proof {
                    lemma_shape_prefix(d@, i + 1);
                }
                return None;
            },
            Some(q) => {
                p = q;
            },
        }
        i = i + 1;
    }
    assert(d@.take(n as int) =~= d@);
    Some(p)
}

/// A shape without an empty axis has as many elements as its product.
pub proof fn lemma_shape_product(d: Seq<usize>)
    requires
        shape_product(d) is Some,
        forall|i: int| 0 <= i < d.len() ==> d[i] > 0,
    ensures
        product(d) == shape_product(d)->0,
        product(d) >= 1,
    decreases d.len(),
{
    if d.len() > 0 {
        lemma_shape_product(d.drop_last());
        let p = product(d.drop_last()) as int;
        let l = d.last() as int;
        assert(p * l >= 1) by (nonlinear_arith)
            requires
                p >= 1,
                l >= 1,
        ;
    }
}

/// How many elements a shape has: at least one.
pub open spec fn element_count(shape: Seq<usize>) -> Option<usize> {
    match shape_product(shape) {
        None => None,
        Some(p) => Some(
            if p > 1 {
                p
            } else {
                1
            },
        ),
    }
}

/// Numbers in decimal with commas between them.
pub open spec fn joined(d: Seq<usize>) -> Seq<char>
    decreases d.len(),
{
    if d.len() == 0 {
        Seq::empty()
    } else if d.len() == 1 {
        decimal(d[0] as nat)
    } else {
        joined(d.drop_last()).push(',') + decimal(d.last() as nat)
    }
}

/// The text of a TDIM.
pub open spec fn tdim_text(d: Seq<usize>) -> Seq<char> {
    (seq!['('] + joined(d)).push(')')
}

/// The text of a TDIM.
pub fn tdim_text_of(d: &Vec<usize>) -> (r: String)
    ensures
        r@ == tdim_text(d@),
{
    let n: usize = d.len();
    let mut c: Vec<char> = vec!['('];
    let mut i: usize = 0;
    assert(d@.take(0) =~= Seq::empty());
    assert(c@ =~= seq!['('] + joined(d@.take(0)));
    while i < n
        invariant
            i <= n == d@.len(),
            c@ == seq!['('] + joined(d@.take(i as int)),
        decreases n - i,
    {
        let ghost before = joined(d@.take(i as int));
        proof {
            assert(d@.take(i + 1).drop_last() =~= d@.take(i as int));
        }
        if i > 0 {
            c.push(',');
        }
        let mut t: Vec<char> = decimal_of(d[i] as u64);
        let ghost digits = t@;
        c.append(&mut t);
        i = i + 1;
        assert(c@ =~= seq!['('] + joined(d@.take(i as int)));
    }
    assert(d@.take(n as int) =~= d@);
    c.push(')');
    assert(c@ =~= tdim_text(d@));
    string_of(&c)
}

/// The TDIM of a field: for strings their length and the axes in reverse, where
/// there are axes; for others the axes in reverse, where there are at least
/// two.
pub open spec fn field_tdim(chars: Option<usize>, shape: Seq<usize>) -> Option<Seq<usize>> {
    match chars {
        Some(n) => if shape.len() > 0 {
            Some(seq![n] + shape.reverse())
        } else {
            None
        },
        None => if shape.len() >= 2 {
            Some(shape.reverse())
        } else {
            None
        },
    }
}

fn field_tdim_of(chars: Option<usize>, shape: &Vec<usize>) -> (r: Option<Vec<usize>>)
    ensures
        crate::columns::opt_dims(r) == field_tdim(chars, shape@),
{
    let n: usize = shape.len();
    let mut d: Vec<usize> = Vec::new();
    match chars {
        Some(k) => {
            if n == 0 {
                return None;
            }
            d.push(k);
        },
        None => {
            if n < 2 {
                return None;
            }
        },
    }
    let ghost head = d@;
    let mut i: usize = n;
    assert(d@ =~= head + shape@.reverse().take(0));
    while i > 0
        invariant
            i <= n == shape@.len(),
            d@ == head + shape@.reverse().take(n - i),
        decreases i,
    {
        d.push(shape[i - 1]);
        i = i - 1;
        assert(d@ =~= head + shape@.reverse().take(n - i));
    }
    assert(d@ =~= head + shape@.reverse());
    proof {
        match chars {
            Some(k) => {
                assert(d@ =~= seq![k] + shape@.reverse());
            },
            None => {
                assert(d@ =~= shape@.reverse());
            },
        }
    }
    Some(d)
}

// One column ---------------------------------------------------------------

/// Whether a field becomes a column of bits. To ask it of all fields asks it of
/// truth values only; to ask it of a name asks it of that field, whatever it
/// is.
pub open spec fn wants_bits(f: Field, upper: Seq<char>, bits: Option<BitColumns>) -> bool {
    match bits {
        None => false,
        Some(BitColumns::All) => f.kind == 'b' && f.itemsize == 1,
        Some(BitColumns::Names(names)) => first_text(texts(names@), upper) is Some,
    }
}

impl BitColumns {
    /// Whether a name in upper case is asked for.
    pub fn contains(&self, upper: &str) -> (r: bool)
        ensures
            r == match *self {
                BitColumns::All => true,
                BitColumns::Names(names) => first_text(texts(names@), upper@) is Some,
            },
    {
        match self {
            BitColumns::All => true,
            BitColumns::Names(names) => position_of(names, upper).is_some(),
        }
    }
}

fn wants_bits_of(f: &Field, upper: &str, bits: &Option<BitColumns>) -> (r: bool)
    ensures
        r == wants_bits(*f, upper@, *bits),
{
    match bits {
        None => false,
        Some(b) => match b {
            BitColumns::All => f.kind == 'b' && f.itemsize == 1,
            BitColumns::Names(_) => b.contains(upper),
        },
    }
}

/// What the cells of a field of objects are made of.
pub open spec fn inner_type(name: Seq<char>, inner: Option<InnerTypes>) -> Result<
    Letter,
    DtypeError,
> {
    match inner {
        None => Err(DtypeError::NoInnerTypes),
        Some(t) => match first_text(texts(t.names@), name) {
            None => Err(DtypeError::MissingInnerType),
            Some(i) => match t.codes@[i] {
                None => Err(DtypeError::InnerTypeNotText),
                Some(code) => match inner_code(code@) {
                    None => Err(DtypeError::UnsupportedInner),
                    Some(l) => Ok(l),
                },
            },
        },
    }
}

fn inner_type_of(name: &str, inner: &Option<InnerTypes>) -> (r: Result<Letter, DtypeError>)
    requires
        inner matches Some(t) ==> t.names@.len() == t.codes@.len(),
    ensures
        r == inner_type(name@, *inner),
{
    match inner {
        None => Err(DtypeError::NoInnerTypes),
        Some(t) => match position_of(&t.names, name) {
            None => Err(DtypeError::MissingInnerType),
            Some(i) => match &t.codes[i] {
                None => Err(DtypeError::InnerTypeNotText),
                Some(code) => match classify_var_numpy_field(code.as_str()) {
                    None => Err(DtypeError::UnsupportedInner),
                    Some(l) => Ok(l),
                },
            },
        },
    }
}

/// What cells in the heap are made of: truth values become bits where bits are
/// asked for.
pub open spec fn packed_letter(letter: Letter, bits: bool) -> Letter {
    if bits && letter is L {
        Letter::X
    } else {
        letter
    }
}

/// What cells in the heap are made of, with truth values as bits where these are
/// asked for.
pub fn packed_letter_of(letter: Letter, bits: bool) -> (r: Letter)
    ensures
        r == packed_letter(letter, bits),
{
    match letter {
        Letter::L => if bits {
            Letter::X
        } else {
            letter
        },
        _ => letter,
    }
}

/// The repeat count and the width of a column of `count` elements.
pub open spec fn class_size(c: ScalarClass, count: usize) -> (int, int) {
    match c.chars {
        Some(n) => (n * count, n * count),
        None => if c.letter is X {
            (count as int, bit_bytes(count as nat) as int)
        } else {
            (count as int, c.elem_bytes * count)
        },
    }
}

/// The view of optional dimensions as the text of a TDIM.
pub open spec fn opt_tdim_text(d: Option<Seq<usize>>) -> Option<Seq<char>> {
    match d {
        Some(v) => Some(tdim_text(v)),
        None => None,
    }
}

/// The column that elements of a kind and a size become, in cells of a shape.
pub open spec fn fixed_column(
    name: Seq<char>,
    kind: char,
    itemsize: usize,
    shape: Seq<usize>,
    unit: Option<Seq<char>>,
    bits: bool,
) -> Result<WriteColumnView, DtypeError> {
    match scalar_class(kind, itemsize, bits) {
        Err(e) => Err(e),
        Ok(c) => match element_count(shape) {
            None => Err(DtypeError::TooLarge),
            Some(count) => {
                let (repeat, width) = class_size(c, count);
                if repeat > usize::MAX || width > usize::MAX {
                    Err(DtypeError::TooLarge)
                } else {
                    Ok(
                        WriteColumnView {
                            name,
                            letter: c.letter,
                            repeat: repeat as usize,
                            byte_width: width as usize,
                            tzero: c.tzero,
                            tdim: opt_tdim_text(field_tdim(c.chars, shape)),
                            tunit: unit,
                            var_kind: None,
                        },
                    )
                }
            },
        },
    }
}

/// The column that objects become whose cells are made of an element type.
pub open spec fn heap_column(
    name: Seq<char>,
    letter: Letter,
    unit: Option<Seq<char>>,
    descriptor: Descriptor,
) -> WriteColumnView {
    WriteColumnView {
        name,
        letter,
        repeat: 1,
        byte_width: descriptor_size(descriptor),
        tzero: None,
        tdim: None,
        tunit: unit,
        var_kind: Some(descriptor),
    }
}

/// The column that a field becomes.
pub open spec fn column_for(
    f: Field,
    upper: Seq<char>,
    inner: Option<InnerTypes>,
    bits: Option<BitColumns>,
    descriptor: Descriptor,
) -> Result<WriteColumnView, DtypeError> {
    if f.kind == 'O' {
        if f.shape@.len() > 0 {
            Err(DtypeError::ObjectShape)
        } else {
            match inner_type(f.name@, inner) {
                Err(e) => Err(e),
                Ok(letter) => Ok(
                    heap_column(
                        f.name@,
                        packed_letter(letter, wants_bits(f, upper, bits)),
                        opt_text(f.unit),
                        descriptor,
                    ),
                ),
            }
        }
    } else {
        fixed_column(
            f.name@,
            f.kind,
            f.itemsize,
            f.shape@,
            opt_text(f.unit),
            wants_bits(f, upper, bits),
        )
    }
}

/// The column that a field becomes. `upper` is its name in upper case.
pub fn make_column(
    f: &Field,
    upper: &str,
    inner: &Option<InnerTypes>,
    bits: &Option<BitColumns>,
    descriptor: Descriptor,
) -> (r: Result<WriteColumn, DtypeError>)
    requires
        inner matches Some(t) ==> t.names@.len() == t.codes@.len(),
    ensures
        match r {
            Ok(c) => column_for(*f, upper@, *inner, *bits, descriptor) == Ok::<
                WriteColumnView,
                DtypeError,
            >(c@),
            Err(e) => column_for(*f, upper@, *inner, *bits, descriptor) == Err::<
                WriteColumnView,
                DtypeError,
            >(e),
        },
{
    if f.kind == 'O' {
        if f.shape.len() > 0 {
            return Err(DtypeError::ObjectShape);
        }
        let asked: bool = wants_bits_of(f, upper, bits);
        let letter: Letter = match inner_type_of(f.name.as_str(), inner) {
            Ok(l) => packed_letter_of(l, asked),
            Err(e) => {
                return Err(e);
            },
        };
        return Ok(
            WriteColumn {
                name: f.name.clone(),
                letter,
                repeat: 1,
                byte_width: descriptor_bytes(descriptor),
                tzero: None,
                tdim: None,
                tunit: copy_opt_text(&f.unit),
                var_kind: Some(descriptor),
            },
        );
    }
    let opt_in: bool = wants_bits_of(f, upper, bits);
    let c: ScalarClass = match classify_scalar_numpy_field(f.kind, f.itemsize, opt_in) {
        Ok(c) => c,
        Err(e) => {
            return Err(e);
        },
    };
    let count: usize = match shape_product_of(&f.shape) {
        None => {
            return Err(DtypeError::TooLarge);
        },
        Some(p) => if p > 1 {
            p
        } else {
            1
        },
    };
    let (repeat, byte_width): (usize, usize) = match c.chars {
        Some(n) => match n.checked_mul(count) {
            None => {
                return Err(DtypeError::TooLarge);
            },
            Some(t) => (t, t),
        },
        None => match c.letter {
            Letter::X => (count, bit_bytes_of(count)),
            _ => match c.elem_bytes.checked_mul(count) {
                None => {
                    return Err(DtypeError::TooLarge);
                },
                Some(w) => (count, w),
            },
        },
    };
    let tdim: Option<String> = match field_tdim_of(c.chars, &f.shape) {
        None => None,
        Some(d) => Some(tdim_text_of(&d)),
    };
    Ok(
        WriteColumn {
            name: f.name.clone(),
            letter: c.letter,
            repeat,
            byte_width,
            tzero: c.tzero,
            tdim,
            tunit: copy_opt_text(&f.unit),
            var_kind: None,
        },
    )
}

// All columns --------------------------------------------------------------

/// The columns that the first `n` fields become, or the first field that
/// becomes none.
pub open spec fn columns_for(
    f: Seq<Field>,
    uppers: Seq<Seq<char>>,
    inner: Option<InnerTypes>,
    bits: Option<BitColumns>,
    descriptor: Descriptor,
    n: nat,
) -> Result<Seq<WriteColumnView>, CreateError>
    decreases n,
{
    if n == 0 {
        Ok(Seq::empty())
    } else {
        match columns_for(f, uppers, inner, bits, descriptor, (n - 1) as nat) {
            Err(e) => Err(e),
            Ok(s) => match column_for(f[n - 1], uppers[n - 1], inner, bits, descriptor) {
                Err(error) => Err(CreateError::Field { at: (n - 1) as usize, error }),
                Ok(c) => Ok(s.push(c)),
            },
        }
    }
}

proof fn lemma_columns_for_prefix(
    f: Seq<Field>,
    uppers: Seq<Seq<char>>,
    inner: Option<InnerTypes>,
    bits: Option<BitColumns>,
    descriptor: Descriptor,
    m: nat,
    n: nat,
)
    requires
        m <= n,
        columns_for(f, uppers, inner, bits, descriptor, m) is Err,
    ensures
        columns_for(f, uppers, inner, bits, descriptor, n) == columns_for(
            f,
            uppers,
            inner,
            bits,
            descriptor,
            m,
        ),
    decreases n,
{
    if m < n {
        lemma_columns_for_prefix(f, uppers, inner, bits, descriptor, m, (n - 1) as nat);
    }
}

/// The first key that is not among the names.
pub open spec fn first_stray(keys: Seq<Seq<char>>, names: Seq<Seq<char>>) -> Option<int>
    decreases keys.len(),
{
    if keys.len() == 0 {
        None
    } else {
        match first_stray(keys.drop_last(), names) {
            Some(i) => Some(i),
            None => if first_text(names, keys.last()) is None {
                Some(keys.len() - 1)
            } else {
                None
            },
        }
    }
}

proof fn lemma_first_stray(keys: Seq<Seq<char>>, names: Seq<Seq<char>>, k: int)
    requires
        0 <= k <= keys.len(),
        first_stray(keys.take(k), names) is Some,
    ensures
        first_stray(keys, names) == first_stray(keys.take(k), names),
    decreases keys.len(),
{
    if k < keys.len() {
        assert(keys.drop_last().take(k) =~= keys.take(k));
        lemma_first_stray(keys.drop_last(), names, k);
    } else {
        assert(keys.take(k) =~= keys);
    }
}

fn find_stray(keys: &Vec<String>, names: &Vec<String>) -> (r: Option<usize>)
    ensures
        match r {
            Some(i) => first_stray(texts(keys@), texts(names@)) == Some(i as int),
            None => first_stray(texts(keys@), texts(names@)) is None,
        },
{
    let n: usize = keys.len();
    let ghost k = texts(keys@);
    let ghost m = texts(names@);
    let mut i: usize = 0;
    assert(k.take(0) =~= Seq::empty());
    while i < n
        invariant
            i <= n == keys@.len(),
            k == texts(keys@),
            m == texts(names@),
            first_stray(k.take(i as int), m) is None,
        decreases n - i,
    {
        proof {
            assert(k.take(i + 1).drop_last() =~= k.take(i as int));
            assert(k.take(i + 1).last() == keys@[i as int]@);
        }
        if position_of(names, keys[i].as_str()).is_none() {
            proof {
                lemma_first_stray(k, m, i + 1);
            }
            return Some(i);
        }
        i = i + 1;
    }
    assert(k.take(n as int) =~= k);
    None
}

/// The columns that the fields of an array become. `uppers` are the names of
/// the fields in upper case. Every name that is said to be of objects or of
/// bits must be the name of a field.
pub open spec fn table_for(
    fields: Option<Vec<Field>>,
    uppers: Seq<Seq<char>>,
    inner: Option<InnerTypes>,
    bits: Option<BitColumns>,
    descriptor: Descriptor,
) -> Result<Seq<WriteColumnView>, CreateError> {
    match fields {
        None => Err(CreateError::NotStructured),
        Some(f) => if f@.len() == 0 {
            Err(CreateError::NoFields)
        } else {
            match columns_for(f@, uppers, inner, bits, descriptor, f@.len()) {
                Err(e) => Err(e),
                Ok(cols) => {
                    let stray_inner = match inner {
                        None => None,
                        Some(t) => first_stray(texts(t.names@), field_names(f@)),
                    };
                    let stray_bits = match bits {
                        Some(BitColumns::Names(names)) => first_stray(texts(names@), uppers),
                        _ => None,
                    };
                    if stray_inner is Some {
                        Err(CreateError::UnknownInnerType { at: stray_inner->0 as usize })
                    } else if stray_bits is Some {
                        Err(CreateError::UnknownBitColumn { at: stray_bits->0 as usize })
                    } else {
                        Ok(cols)
                    }
                },
            }
        },
    }
}

fn names_of(f: &Vec<Field>) -> (r: Vec<String>)
    ensures
        texts(r@) == field_names(f@),
{
    let n: usize = f.len();
    let mut r: Vec<String> = Vec::new();
    let mut i: usize = 0;
    while i < n
        invariant
            i <= n == f@.len(),
            texts(r@) == field_names(f@).take(i as int),
        decreases n - i,
    {
        let ghost before = texts(r@);
        let s: String = f[i].name.clone();
        r.push(s);
        assert(texts(r@) =~= before.push(s@));
        i = i + 1;
        assert(texts(r@) =~= field_names(f@).take(i as int));
    }
    assert(texts(r@) =~= field_names(f@));
    r
}

/// The columns that the fields of an array become, where the names of the
/// fields in upper case are known.
pub fn columns_with_uppers(
    fields: &Option<Vec<Field>>,
    uppers: &Vec<String>,
    inner: &Option<InnerTypes>,
    bits: &Option<BitColumns>,
    descriptor: Descriptor,
) -> (r: Result<Vec<WriteColumn>, CreateError>)
    requires
        fields matches Some(f) ==> f@.len() == uppers@.len(),
        inner matches Some(t) ==> t.names@.len() == t.codes@.len(),
    ensures
        match r {
            Ok(c) => table_for(*fields, texts(uppers@), *inner, *bits, descriptor) == Ok::<
                Seq<WriteColumnView>,
                CreateError,
            >(write_views(c@)),
            Err(e) => table_for(*fields, texts(uppers@), *inner, *bits, descriptor) == Err::<
                Seq<WriteColumnView>,
                CreateError,
            >(e),
        },
{
    let f: &Vec<Field> = match fields {
        None => {
            return Err(CreateError::NotStructured);
        },
        Some(f) => f,
    };
    let n: usize = f.len();
    if n == 0 {
        return Err(CreateError::NoFields);
    }
    let ghost u = texts(uppers@);
    let mut out: Vec<WriteColumn> = Vec::new();
    let mut i: usize = 0;
    assert(write_views(out@) =~= Seq::empty());
    while i < n
        invariant
            i <= n == f@.len() == uppers@.len(),
            u == texts(uppers@),
            inner matches Some(t) ==> t.names@.len() == t.codes@.len(),
            fields == Some(*f),
            n > 0,
            columns_for(f@, u, *inner, *bits, descriptor, i as nat) == Ok::<
                Seq<WriteColumnView>,
                CreateError,
            >(write_views(out@)),
        decreases n - i,
    {
        match make_column(&f[i], uppers[i].as_str(), inner, bits, descriptor) {
            Err(error) => {
                proof {
                    lemma_columns_for_prefix(
                        f@,
                        u,
                        *inner,
                        *bits,
                        descriptor,
                        (i + 1) as nat,
                        n as nat,
                    );
                }
                return Err(CreateError::Field { at: i, error });
            },
            Ok(c) => {
                let ghost before = write_views(out@);
                out.push(c);
                assert(write_views(out@) =~= before.push(c@));
            },
        }
        i = i + 1;
    }
    match inner {
        None => {},
        Some(t) => {
            let names: Vec<String> = names_of(f);
            match find_stray(&t.names, &names) {
                None => {},
                Some(at) => {
                    return Err(CreateError::UnknownInnerType { at });
                },
            }
        },
    }
    match bits {
        Some(b) => match b {
            BitColumns::Names(names) => match find_stray(names, uppers) {
                None => {},
                Some(at) => {
                    return Err(CreateError::UnknownBitColumn { at });
                },
            },
            BitColumns::All => {},
        },
        None => {},
    }
    Ok(out)
}

/// Texts in upper case.
pub open spec fn uppercases(s: Seq<Seq<char>>) -> Seq<Seq<char>> {
    Seq::new(s.len(), |i: int| uppercase(s[i]))
}

/// The names of fields in upper case.
fn uppers_of(f: &Vec<Field>) -> (r: Vec<String>)
    ensures
        texts(r@) == uppercases(field_names(f@)),
        r@.len() == f@.len(),
{
    let n: usize = f.len();
    let mut r: Vec<String> = Vec::new();
    let mut i: usize = 0;
    while i < n
        invariant
            i <= n == f@.len(),
            texts(r@) == uppercases(field_names(f@)).take(i as int),
        decreases n - i,
    {
        let ghost before = texts(r@);
        let s: String = to_uppercase(f[i].name.as_str());
        r.push(s);
        assert(texts(r@) =~= before.push(s@));
        i = i + 1;
        assert(texts(r@) =~= uppercases(field_names(f@)).take(i as int));
    }
    assert(texts(r@) =~= uppercases(field_names(f@)));
    r
}

/// The names of the fields of an array in upper case.
pub open spec fn field_uppers(fields: Option<Vec<Field>>) -> Seq<Seq<char>> {
    match fields {
        None => Seq::empty(),
        Some(f) => uppercases(field_names(f@)),
    }
}

/// The columns that the fields of an array become.
pub fn dtype_to_write_columns(
    fields: &Option<Vec<Field>>,
    inner: &Option<InnerTypes>,
    bits: &Option<BitColumns>,
    descriptor: Descriptor,
) -> (r: Result<Vec<WriteColumn>, CreateError>)
    requires
        inner matches Some(t) ==> t.names@.len() == t.codes@.len(),
    ensures
        match r {
            Ok(c) => table_for(*fields, field_uppers(*fields), *inner, *bits, descriptor) == Ok::<
                Seq<WriteColumnView>,
                CreateError,
            >(write_views(c@)),
            Err(e) => table_for(*fields, field_uppers(*fields), *inner, *bits, descriptor)
                == Err::<Seq<WriteColumnView>, CreateError>(e),
        },
{
    let uppers: Vec<String> = match fields {
        None => Vec::new(),
        Some(f) => uppers_of(f),
    };
    assert(texts(uppers@) =~= field_uppers(*fields));
    columns_with_uppers(fields, &uppers, inner, bits, descriptor)
}

} // verus!
