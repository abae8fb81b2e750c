//! Columns of a table: the TFORM and TDIM keywords, the layout of a row and
//! the TSCAL/TZERO classifier.

use vstd::prelude::*;

use crate::bytes::{bit_bytes, bit_bytes_of};

verus! {

/// The element types of the format.
#[derive(Clone, Copy, PartialEq, Eq, Structural, Debug)]
pub enum Letter {
    /// Logical: the letter T or another byte.
    L,
    /// Unsigned byte.
    B,
    /// 16-bit integer.
    I,
    /// 32-bit integer.
    J,
    /// 64-bit integer.
    K,
    /// Character.
    A,
    /// 32-bit float.
    E,
    /// 64-bit float.
    D,
    /// Pair of 32-bit floats.
    C,
    /// Pair of 64-bit floats.
    M,
    /// Bit, packed from the high end of each byte.
    X,
}

/// The two forms of a descriptor: a pair of 32-bit or of 64-bit integers.
#[derive(Clone, Copy, PartialEq, Eq, Structural, Debug)]
pub enum Descriptor {
    P,
    Q,
}

/// The element type that a character stands for.
pub open spec fn letter_for(c: char) -> Option<Letter> {
    if c == 'L' {
        Some(Letter::L)
    } else if c == 'B' {
        Some(Letter::B)
    } else if c == 'I' {
        Some(Letter::I)
    } else if c == 'J' {
        Some(Letter::J)
    } else if c == 'K' {
        Some(Letter::K)
    } else if c == 'A' {
        Some(Letter::A)
    } else if c == 'E' {
        Some(Letter::E)
    } else if c == 'D' {
        Some(Letter::D)
    } else if c == 'C' {
        Some(Letter::C)
    } else if c == 'M' {
        Some(Letter::M)
    } else if c == 'X' {
        Some(Letter::X)
    } else {
        None
    }
}

/// The element type that a character stands for.
pub fn letter_of(c: char) -> (r: Option<Letter>)
    ensures
        r == letter_for(c),
{
    match c {
        'L' => Some(Letter::L),
        'B' => Some(Letter::B),
        'I' => Some(Letter::I),
        'J' => Some(Letter::J),
        'K' => Some(Letter::K),
        'A' => Some(Letter::A),
        'E' => Some(Letter::E),
        'D' => Some(Letter::D),
        'C' => Some(Letter::C),
        'M' => Some(Letter::M),
        'X' => Some(Letter::X),
        _ => None,
    }
}

/// The character of an element type.
pub open spec fn letter_sign(l: Letter) -> char {
    match l {
        Letter::L => 'L',
        Letter::B => 'B',
        Letter::I => 'I',
        Letter::J => 'J',
        Letter::K => 'K',
        Letter::A => 'A',
        Letter::E => 'E',
        Letter::D => 'D',
        Letter::C => 'C',
        Letter::M => 'M',
        Letter::X => 'X',
    }
}

/// The character of an element type.
pub fn letter_char(l: Letter) -> (r: char)
    ensures
        r == letter_sign(l),
        letter_for(r) == Some(l),
{
    match l {
        Letter::L => 'L',
        Letter::B => 'B',
        Letter::I => 'I',
        Letter::J => 'J',
        Letter::K => 'K',
        Letter::A => 'A',
        Letter::E => 'E',
        Letter::D => 'D',
        Letter::C => 'C',
        Letter::M => 'M',
        Letter::X => 'X',
    }
}

/// The bytes of one element; a bit has no whole number of them.
pub open spec fn element_size(l: Letter) -> Option<usize> {
    match l {
        Letter::L | Letter::B | Letter::A => Some(1),
        Letter::I => Some(2),
        Letter::J | Letter::E => Some(4),
        Letter::K | Letter::D | Letter::C => Some(8),
        Letter::M => Some(16),
        Letter::X => None,
    }
}

/// The bytes of one element; a bit has no whole number of them.
pub fn bytes_per_element(l: Letter) -> (r: Option<usize>)
    ensures
        r == element_size(l),
{
    match l {
        Letter::L | Letter::B | Letter::A => Some(1),
        Letter::I => Some(2),
        Letter::J | Letter::E => Some(4),
        Letter::K | Letter::D | Letter::C => Some(8),
        Letter::M => Some(16),
        Letter::X => None,
    }
}

/// The bytes of the unit whose order is reversed between the file and a
/// little-endian host. The two halves of a complex number are units of their
/// own.
pub open spec fn swap_width(l: Letter) -> usize {
    match l {
        Letter::L | Letter::B | Letter::A | Letter::X => 1,
        Letter::I => 2,
        Letter::J | Letter::E | Letter::C => 4,
        Letter::K | Letter::D | Letter::M => 8,
    }
}

/// The bytes of the unit whose order is reversed.
pub fn byteswap_unit(l: Letter) -> (r: usize)
    ensures
        r == swap_width(l),
{
    match l {
        Letter::L | Letter::B | Letter::A | Letter::X => 1,
        Letter::I => 2,
        Letter::J | Letter::E | Letter::C => 4,
        Letter::K | Letter::D | Letter::M => 8,
    }
}

/// The bytes of `n` elements, or of `n` bits for `X`.
pub open spec fn cell_bytes(l: Letter, n: nat) -> nat {
    match element_size(l) {
        Some(w) => n * (w as nat),
        None => bit_bytes(n),
    }
}

/// The bytes of `n` elements, or `None` where they are beyond `usize`.
pub fn cell_bytes_of(l: Letter, n: usize) -> (r: Option<usize>)
    ensures
        match r {
            Some(b) => b == cell_bytes(l, n as nat),
            None => cell_bytes(l, n as nat) > usize::MAX,
        },
{
    match bytes_per_element(l) {
        Some(w) => n.checked_mul(w),
        None => Some(bit_bytes_of(n)),
    }
}

/// Whether an element is an integer.
pub open spec fn is_integer(l: Letter) -> bool {
    l is B || l is I || l is J || l is K
}

/// Whether an element is an integer.
pub fn is_integer_letter(l: Letter) -> (r: bool)
    ensures
        r == is_integer(l),
{
    match l {
        Letter::B | Letter::I | Letter::J | Letter::K => true,
        _ => false,
    }
}

/// The bytes of a descriptor.
pub open spec fn descriptor_size(d: Descriptor) -> usize {
    match d {
        Descriptor::P => 8,
        Descriptor::Q => 16,
    }
}

/// The bytes of a descriptor.
pub fn descriptor_bytes(d: Descriptor) -> (r: usize)
    ensures
        r == descriptor_size(d),
{
    match d {
        Descriptor::P => 8,
        Descriptor::Q => 16,
    }
}

// Columns ------------------------------------------------------------------

/// One column of a table.
///
/// In a column of descriptors `letter` is the type of the elements in the
/// heap, `repeat` is 1 and `byte_width` is the size of the descriptor.
#[derive(Debug)]
pub struct Column {
    pub name: String,
    pub letter: Letter,
    /// Values per row; for `A` the characters, for `X` the bits.
    pub repeat: usize,
    /// TDIM, the fastest axis first.
    pub tdim: Option<Vec<usize>>,
    /// Where the cell starts in the row.
    pub byte_offset: usize,
    /// The bytes of the cell in the row.
    pub byte_width: usize,
    /// The form of the descriptor, for a column whose cells are in the heap.
    pub var_kind: Option<Descriptor>,
    /// TSCAL as the bits of a 64-bit float.
    pub tscal: u64,
    /// TZERO as the bits of a 64-bit float.
    pub tzero: u64,
    /// TNULL, in the space of stored integers.
    pub tnull: Option<i64>,
    pub tunit: Option<String>,
}

/// What a column is, with its texts and dimensions as sequences.
pub struct ColumnView {
    pub name: Seq<char>,
    pub letter: Letter,
    pub repeat: usize,
    pub tdim: Option<Seq<usize>>,
    pub byte_offset: usize,
    pub byte_width: usize,
    pub var_kind: Option<Descriptor>,
    pub tscal: u64,
    pub tzero: u64,
    pub tnull: Option<i64>,
    pub tunit: Option<Seq<char>>,
}

/// The view of an optional text.
pub open spec fn opt_text(s: Option<String>) -> Option<Seq<char>> {
    match s {
        Some(t) => Some(t@),
        None => None,
    }
}

/// The view of optional dimensions.
pub open spec fn opt_dims(d: Option<Vec<usize>>) -> Option<Seq<usize>> {
    match d {
        Some(v) => Some(v@),
        None => None,
    }
}

impl View for Column {
    type V = ColumnView;

    open spec fn view(&self) -> ColumnView {
        ColumnView {
            name: self.name@,
            letter: self.letter,
            repeat: self.repeat,
            tdim: opt_dims(self.tdim),
            byte_offset: self.byte_offset,
            byte_width: self.byte_width,
            var_kind: self.var_kind,
            tscal: self.tscal,
            tzero: self.tzero,
            tnull: self.tnull,
            tunit: opt_text(self.tunit),
        }
    }
}

/// The views of a list of columns.
pub open spec fn views(cols: Seq<Column>) -> Seq<ColumnView> {
    Seq::new(cols.len(), |i: int| cols[i]@)
}

/// A copy of a list of dimensions.
pub fn copy_dims(d: &Vec<usize>) -> (r: Vec<usize>)
    ensures
        r@ == d@,
{
    let mut r: Vec<usize> = Vec::new();
    let n: usize = d.len();
    let mut i: usize = 0;
    while i < n
        invariant
            i <= n == d@.len(),
            r@ == d@.take(i as int),
        decreases n - i,
    {
        r.push(d[i]);
        i = i + 1;
        assert(r@ =~= d@.take(i as int));
    }
    assert(r@ =~= d@);
    r
}

/// A copy of an optional text.
pub fn copy_opt_text(s: &Option<String>) -> (r: Option<String>)
    ensures
        opt_text(r) == opt_text(*s),
{
    match s {
        Some(t) => Some(t.clone()),
        None => None,
    }
}

impl Column {
    /// A copy of the column.
    pub fn duplicate(&self) -> (r: Column)
        ensures
            r@ == self@,
    {
        let tdim: Option<Vec<usize>> = match &self.tdim {
            Some(d) => Some(copy_dims(d)),
            None => None,
        };
        Column {
            name: self.name.clone(),
            letter: self.letter,
            repeat: self.repeat,
            tdim,
            byte_offset: self.byte_offset,
            byte_width: self.byte_width,
            var_kind: self.var_kind,
            tscal: self.tscal,
            tzero: self.tzero,
            tnull: self.tnull,
            tunit: copy_opt_text(&self.tunit),
        }
    }
}

/// The product of dimensions.
pub open spec fn product(d: Seq<usize>) -> nat
    decreases d.len(),
{
    if d.len() == 0 {
        1
    } else {
        product(d.drop_last()) * (d.last() as nat)
    }
}

/// The product of no zero among the dimensions is at least each of its parts.
pub proof fn lemma_product_grows(d: Seq<usize>, k: int)
    requires
        0 <= k <= d.len(),
        forall|i: int| 0 <= i < d.len() ==> d[i] > 0,
    ensures
        1 <= product(d.take(k)) <= product(d),
    decreases d.len(),
{
    if k < d.len() {
        lemma_product_grows(d.drop_last(), k);
        assert(d.drop_last().take(k) =~= d.take(k));
        let p = product(d.drop_last()) as int;
        let l = d.last() as int;
        assert(p <= p * l) by (nonlinear_arith)
            requires
                p >= 0,
                l >= 1,
        ;
    } else {
        assert(d.take(k) =~= d);
        if d.len() > 0 {
            lemma_product_grows(d.drop_last(), k - 1);
            assert(d.drop_last().take(k - 1) =~= d.drop_last());
            let p = product(d.drop_last()) as int;
            let l = d.last() as int;
            assert(1 <= p * l) by (nonlinear_arith)
                requires
                    p >= 1,
                    l >= 1,
            ;
        }
    }
}

/// The product of two lists of dimensions is the product of their products.
pub proof fn lemma_product_add(a: Seq<usize>, b: Seq<usize>)
    ensures
        product(a + b) == product(a) * product(b),
    decreases b.len(),
{
    if b.len() == 0 {
        assert(a + b =~= a);
        assert(product(a) * 1 == product(a));
    } else {
        let c = b.drop_last();
        lemma_product_add(a, c);
        assert((a + b).last() == b.last());
        assert((a + b).drop_last() =~= a + c);
        let x = product(a) as int;
        let y = product(c) as int;
        let z = b.last() as int;
        assert((x * y) * z == x * (y * z)) by (nonlinear_arith);
    }
}

/// The product of one dimension.
pub proof fn lemma_product_one(n: usize)
    ensures
        product(seq![n]) == n,
{
    reveal_with_fuel(product, 2);
    assert(seq![n].drop_last() =~= Seq::empty());
    assert(1 * n == n);
}

/// The order of dimensions does not change their product.
pub proof fn lemma_product_reverse(d: Seq<usize>)
    ensures
        product(d.reverse()) == product(d),
    decreases d.len(),
{
    if d.len() == 0 {
        assert(d.reverse() =~= d);
    } else {
        let c = d.drop_last();
        lemma_product_reverse(c);
        assert(d.reverse() =~= seq![d.last()] + c.reverse());
        lemma_product_add(seq![d.last()], c.reverse());
        lemma_product_one(d.last());
        let x = product(c) as int;
        let z = d.last() as int;
        assert(x * z == z * x) by (nonlinear_arith);
    }
}

/// The product of dimensions that are not zero, or `None` beyond `usize`.
pub fn product_of(d: &Vec<usize>) -> (r: Option<usize>)
    requires
        forall|i: int| 0 <= i < d@.len() ==> d@[i] > 0,
    ensures
        match r {
            Some(p) => p == product(d@),
            None => product(d@) > usize::MAX,
        },
{
    let n: usize = d.len();
    let mut p: usize = 1;
    let mut i: usize = 0;
    while i < n
        invariant
            i <= n == d@.len(),
            p == product(d@.take(i as int)),
            forall|k: int| 0 <= k < d@.len() ==> d@[k] > 0,
        decreases n - i,
    {
        proof {
            assert(d@.take(i + 1).drop_last() =~= d@.take(i as int));
            lemma_product_grows(d@, i + 1);
        }
        match p.checked_mul(d[i]) {
            None => {
                return None;
            },
            Some(q) => {
                p = q;
            },
        }
        i = i + 1;
    }
    assert(d@.take(n as int) =~= d@);
    Some(p)
}

/// Whether the fields of a column agree with each other.
pub open spec fn column_ok(c: ColumnView) -> bool {
    &&& match c.var_kind {
        Some(d) => c.repeat == 1 && c.tdim is None && c.byte_width == descriptor_size(d),
        None => c.byte_width == cell_bytes(c.letter, c.repeat as nat),
    }
    &&& c.tdim matches Some(d) ==> {
        &&& d.len() > 0
        &&& forall|i: int| 0 <= i < d.len() ==> d[i] > 0
        &&& product(d) == c.repeat
    }
    &&& c.tnull is Some ==> is_integer(c.letter)
}

/// Whether the dimensions of a column, where it has some, are not none.
pub open spec fn dims_present(c: ColumnView) -> bool {
    c.tdim matches Some(d) ==> d.len() > 0
}

/// Whether the columns follow each other without a gap, from the start of the
/// row to `width`.
pub open spec fn columns_fill(cols: Seq<ColumnView>, width: int) -> bool
    decreases cols.len(),
{
    if cols.len() == 0 {
        width == 0
    } else {
        let c = cols.last();
        c.byte_offset + c.byte_width == width && columns_fill(
            cols.drop_last(),
            c.byte_offset as int,
        )
    }
}

/// Whether columns describe rows of `width` bytes.
pub open spec fn columns_ok(cols: Seq<ColumnView>, width: int) -> bool {
    &&& columns_fill(cols, width)
    &&& forall|i: int| 0 <= i < cols.len() ==> column_ok(#[trigger] cols[i])
}

/// In columns that follow each other, a column ends where the next starts, and
/// all of them lie in the row.
pub proof fn lemma_columns_fill(cols: Seq<ColumnView>, width: int)
    requires
        columns_fill(cols, width),
    ensures
        0 <= width,
        forall|i: int|
            0 <= i < cols.len() ==> 0 <= (#[trigger] cols[i]).byte_offset && cols[i].byte_offset
                + cols[i].byte_width <= width,
        forall|i: int, j: int|
            0 <= i < j < cols.len() ==> (#[trigger] cols[i]).byte_offset + cols[i].byte_width <= (
            #[trigger] cols[j]).byte_offset,
    decreases cols.len(),
{
    if cols.len() > 0 {
        let t = cols.drop_last();
        lemma_columns_fill(t, cols.last().byte_offset as int);
        assert(forall|i: int| 0 <= i < t.len() ==> cols[i] == t[i]);
    }
}

/// Whether any column has its cells in the heap.
pub open spec fn has_var(cols: Seq<ColumnView>) -> bool {
    exists|i: int| 0 <= i < cols.len() && (#[trigger] cols[i]).var_kind is Some
}

/// Whether any column has its cells in the heap.
pub fn any_var_column(cols: &[Column]) -> (r: bool)
    ensures
        r == has_var(views(cols@)),
{
    let n: usize = cols.len();
    let mut i: usize = 0;
    while i < n
        invariant
            i <= n == cols@.len(),
            forall|k: int| 0 <= k < i ==> (#[trigger] views(cols@)[k]).var_kind is None,
        decreases n - i,
    {
        if cols[i].var_kind.is_some() {
            assert(views(cols@)[i as int].var_kind is Some);
            return true;
        }
        i = i + 1;
    }
    false
}

// Scaling ------------------------------------------------------------------

/// How TSCAL and TZERO apply to a column.
#[derive(Clone, Copy, PartialEq, Eq, Structural, Debug)]
pub enum ScalingKind {
    /// Stored values are physical values.
    Unscaled,
    /// TSCAL is 1 and TZERO is the sign bias of the type: the physical values
    /// are the integers of the same width and the other signedness.
    UnsignedTrick,
    /// The physical value is `TSCAL * stored + TZERO` as a 64-bit float.
    General,
}

/// The bits of the 64-bit float 1.
pub const ONE_BITS: u64 = 0x3ff0_0000_0000_0000;

/// The bits of the 64-bit float minus 0; those of 0 are 0.
pub const MINUS_ZERO_BITS: u64 = 0x8000_0000_0000_0000;

/// The bits of the 64-bit float -128.
pub const MINUS_128_BITS: u64 = 0xc060_0000_0000_0000;

/// The bits of the 64-bit float 2^15.
pub const TWO_15_BITS: u64 = 0x40e0_0000_0000_0000;

/// The bits of the 64-bit float 2^31.
pub const TWO_31_BITS: u64 = 0x41e0_0000_0000_0000;

/// The bits of the 64-bit float 2^63.
pub const TWO_63_BITS: u64 = 0x43e0_0000_0000_0000;

/// The bits of the TZERO that turns an integer type into the one of the other
/// signedness.
pub open spec fn sign_bias(l: Letter) -> Option<u64> {
    match l {
        Letter::B => Some(MINUS_128_BITS),
        Letter::I => Some(TWO_15_BITS),
        Letter::J => Some(TWO_31_BITS),
        Letter::K => Some(TWO_63_BITS),
        _ => None,
    }
}

/// How TSCAL and TZERO apply to an element type; `None` where the format does
/// not say: on complex numbers.
pub open spec fn scaling(l: Letter, tscal: u64, tzero: u64) -> Option<ScalingKind> {
    if tscal == ONE_BITS && (tzero == 0 || tzero == MINUS_ZERO_BITS) {
        Some(ScalingKind::Unscaled)
    } else if l is L || l is A || l is X {
        Some(ScalingKind::Unscaled)
    } else if l is C || l is M {
        None
    } else if tscal == ONE_BITS && sign_bias(l) == Some(tzero) {
        Some(ScalingKind::UnsignedTrick)
    } else {
        Some(ScalingKind::General)
    }
}

/// How TSCAL and TZERO apply to a column; `None` where the format does not
/// say.
pub fn scaling_kind(col: &Column) -> (r: Option<ScalingKind>)
    ensures
        r == scaling(col.letter, col.tscal, col.tzero),
{
    if col.tscal == ONE_BITS && (col.tzero == 0 || col.tzero == MINUS_ZERO_BITS) {
        return Some(ScalingKind::Unscaled);
    }
    match col.letter {
        Letter::L | Letter::A | Letter::X => {
            return Some(ScalingKind::Unscaled);
        },
        Letter::C | Letter::M => {
            return None;
        },
        _ => {},
    }
    if col.tscal == ONE_BITS {
        let trick: bool = match col.letter {
            Letter::B => col.tzero == MINUS_128_BITS,
            Letter::I => col.tzero == TWO_15_BITS,
            Letter::J => col.tzero == TWO_31_BITS,
            Letter::K => col.tzero == TWO_63_BITS,
            _ => false,
        };
        if trick {
            return Some(ScalingKind::UnsignedTrick);
        }
    }
    Some(ScalingKind::General)
}

} // verus!
