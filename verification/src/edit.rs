//! Putting columns into a table and taking them out: where they go, what they
//! are, and what becomes of the rows.

use vstd::prelude::*;

use crate::columns::{
    Column, ColumnView, Descriptor, Letter, ONE_BITS, TWO_15_BITS, TWO_31_BITS, TWO_63_BITS,
    column_ok, columns_fill, lemma_columns_fill, lemma_product_add, lemma_product_one,
    lemma_product_reverse, opt_dims, opt_text, product, views,
};
use crate::create::{
    BitColumns, Field, WriteColumn, WriteColumnView, classify_var_numpy_field, element_count,
    field_tdim, fixed_column, heap_column, inner_code, joined, lemma_shape_product, make_column,
    packed_letter, packed_letter_of, scalar_class, tdim_text,
};
use crate::encode::{WriteTransform, source_size, stored_size, transform_ok};
use crate::error::{DtypeError, EditError};
use crate::header::{lemma_joined_parts, lemma_trimmed, offset_bits};
use crate::input::{ArrayInfo, acquire_per_column_array, array_input, first_axis};
use crate::keywords::{comma_parts, split_commas};
use crate::repack::{custom_heap, reject_non_default_theap};
use crate::text::{
    chars_of, decimal, first_text, is_digit, law_decimal_parses, lemma_decimal_value,
    lemma_first_text_at, parse_usize, parsed, part_of, position_of, same_text, texts, to_uppercase,
    trim, trimmed, uppercase,
};
use crate::vla::{
    VarInput, VlaCellPlan, cells_ok, plan_vla_heap_layout, plans_hold, rows_bytes, rows_error,
};

verus! {

// Names and places ---------------------------------------------------------

/// The names of columns in upper case.
pub open spec fn name_uppers(cols: Seq<ColumnView>) -> Seq<Seq<char>> {
    Seq::new(cols.len(), |i: int| uppercase(cols[i].name))
}

/// The names of columns in upper case.
pub fn column_uppers(columns: &[Column]) -> (r: Vec<String>)
    ensures
        texts(r@) == name_uppers(views(columns@)),
{
    let n: usize = columns.len();
    let ghost want = name_uppers(views(columns@));
    let mut r: Vec<String> = Vec::new();
    let mut i: usize = 0;
    assert(texts(r@) =~= want.take(0));
    while i < n
        invariant
            i <= n == columns@.len() == want.len(),
            want == name_uppers(views(columns@)),
            texts(r@) == want.take(i as int),
        decreases n - i,
    {
        let ghost before = texts(r@);
        let s: String = to_uppercase(columns[i].name.as_str());
        let ghost t = s@;
        r.push(s);
        assert(texts(r@) =~= before.push(t));
        i = i + 1;
        assert(texts(r@) =~= want.take(i as int));
    }
    assert(want.take(n as int) =~= want);
    r
}

/// The first column with a name, without regard to case.
pub open spec fn column_named(cols: Seq<ColumnView>, name: Seq<char>) -> Option<int> {
    first_text(name_uppers(cols), uppercase(name))
}

/// Finds the first column with a name, without regard to case.
pub fn find_column_by_name(columns: &[Column], name: &str) -> (r: Option<usize>)
    ensures
        match r {
            Some(i) => column_named(views(columns@), name@) == Some(i as int) && i
                < columns@.len(),
            None => column_named(views(columns@), name@) is None,
        },
{
    let uppers: Vec<String> = column_uppers(columns);
    let want: String = to_uppercase(name);
    assert(texts(uppers@).len() == columns@.len());
    position_of(&uppers, want.as_str())
}

/// How a caller names a column.
#[derive(Debug)]
pub enum ColumnKey {
    /// By its name.
    Name(String),
    /// By its place, from the end where it is negative.
    Index(i64),
    /// By something else.
    Other,
}

/// A place that counts from the end where it is negative.
pub open spec fn place_at(i: i64, n: int) -> Option<int> {
    let p = if i < 0 {
        i + n
    } else {
        i as int
    };
    if 0 <= p < n {
        Some(p)
    } else {
        None
    }
}

fn place_of_index(i: i64, n: usize) -> (r: Option<usize>)
    ensures
        match r {
            Some(p) => place_at(i, n as int) == Some(p as int),
            None => place_at(i, n as int) is None,
        },
{
    let p: i128 = if i < 0 {
        i as i128 + n as i128
    } else {
        i as i128
    };
    if 0 <= p && p < n as i128 {
        Some(p as usize)
    } else {
        None
    }
}

/// The column that a key names, in a table whose columns have the given names
/// in upper case; `upper` is the name of the key in upper case.
pub open spec fn key_place(uppers: Seq<Seq<char>>, key: ColumnKey, upper: Seq<char>) -> Result<
    int,
    EditError,
> {
    match key {
        ColumnKey::Name(_) => match first_text(uppers, upper) {
            Some(i) => Ok(i),
            None => Err(EditError::UnknownColumn),
        },
        ColumnKey::Index(index) => match place_at(index, uppers.len() as int) {
            Some(i) => Ok(i),
            None => Err(EditError::ColumnIndex { index, columns: uppers.len() as usize }),
        },
        ColumnKey::Other => Err(EditError::NotColumnKey),
    }
}

/// Finds the column that a key names, given the names in upper case.
pub fn place_of_key(uppers: &Vec<String>, key: &ColumnKey, upper: &str) -> (r: Result<
    usize,
    EditError,
>)
    ensures
        match r {
            Ok(i) => key_place(texts(uppers@), *key, upper@) == Ok::<int, EditError>(i as int) && i
                < uppers@.len(),
            Err(e) => key_place(texts(uppers@), *key, upper@) == Err::<int, EditError>(e),
        },
{
    match key {
        ColumnKey::Name(_) => match position_of(uppers, upper) {
            Some(i) => Ok(i),
            None => Err(EditError::UnknownColumn),
        },
        ColumnKey::Index(index) => match place_of_index(*index, uppers.len()) {
            Some(i) => Ok(i),
            None => Err(EditError::ColumnIndex { index: *index, columns: uppers.len() }),
        },
        ColumnKey::Other => Err(EditError::NotColumnKey),
    }
}

/// The name of a key in upper case; empty where it has none.
pub open spec fn key_upper(key: ColumnKey) -> Seq<char> {
    match key {
        ColumnKey::Name(s) => uppercase(s@),
        _ => Seq::empty(),
    }
}

fn upper_of_key(key: &ColumnKey) -> (r: String)
    ensures
        r@ == key_upper(*key),
{
    match key {
        ColumnKey::Name(s) => to_uppercase(s.as_str()),
        _ => {
            let r: String = String::new();
            assert(r@ =~= Seq::empty());
            r
        },
    }
}

/// Finds the column that a key names.
pub fn resolve_column_key(columns: &[Column], key: &ColumnKey) -> (r: Result<usize, EditError>)
    ensures
        match r {
            Ok(i) => key_place(name_uppers(views(columns@)), *key, key_upper(*key)) == Ok::<
                int,
                EditError,
            >(i as int) && i < columns@.len(),
            Err(e) => key_place(name_uppers(views(columns@)), *key, key_upper(*key)) == Err::<
                int,
                EditError,
            >(e),
        },
{
    let uppers: Vec<String> = column_uppers(columns);
    let upper: String = upper_of_key(key);
    assert(texts(uppers@).len() == columns@.len());
    place_of_key(&uppers, key, upper.as_str())
}

/// Where a caller wants a column: at a place, behind a column or before one.
#[derive(Debug)]
pub struct Target {
    pub position: Option<i64>,
    pub after: Option<ColumnKey>,
    pub before: Option<ColumnKey>,
}

/// The names in upper case of the two keys of a target.
pub open spec fn opt_key_upper(key: Option<ColumnKey>) -> Seq<char> {
    match key {
        Some(k) => key_upper(k),
        None => Seq::empty(),
    }
}

/// Where a new column goes, in a table whose columns have the given names in
/// upper case; behind the last one where the target says nothing.
pub open spec fn insert_index(
    uppers: Seq<Seq<char>>,
    t: Target,
    after: Seq<char>,
    before: Seq<char>,
) -> Result<int, EditError> {
    let n = uppers.len() as int;
    if (t.position is Some && (t.after is Some || t.before is Some)) || (t.after is Some
        && t.before is Some) {
        Err(EditError::TwoTargets)
    } else {
        match t.position {
            Some(position) => if position < 0 || position > n {
                Err(EditError::Position { position, columns: n as usize })
            } else {
                Ok(position as int)
            },
            None => match t.after {
                Some(k) => match key_place(uppers, k, after) {
                    Ok(i) => Ok(i + 1),
                    Err(e) => Err(e),
                },
                None => match t.before {
                    Some(k) => key_place(uppers, k, before),
                    None => Ok(n),
                },
            },
        }
    }
}

/// Finds where a new column goes, given the names in upper case.
pub fn index_for(uppers: &Vec<String>, t: &Target, after: &str, before: &str) -> (r: Result<
    usize,
    EditError,
>)
    ensures
        match r {
            Ok(i) => insert_index(texts(uppers@), *t, after@, before@) == Ok::<int, EditError>(
                i as int,
            ) && i <= uppers@.len(),
            Err(e) => insert_index(texts(uppers@), *t, after@, before@) == Err::<int, EditError>(
                e,
            ),
        },
{
    let n: usize = uppers.len();
    let has_after: bool = t.after.is_some();
    let has_before: bool = t.before.is_some();
    if (t.position.is_some() && (has_after || has_before)) || (has_after && has_before) {
        return Err(EditError::TwoTargets);
    }
    match t.position {
        Some(position) => {
            if position < 0 || position as u64 > n as u64 {
                return Err(EditError::Position { position, columns: n });
            }
            return Ok(position as usize);
        },
        None => {},
    }
    match &t.after {
        Some(k) => {
            return match place_of_key(uppers, k, after) {
                Ok(i) => Ok(i + 1),
                Err(e) => Err(e),
            };
        },
        None => {},
    }
    match &t.before {
        Some(k) => place_of_key(uppers, k, before),
        None => Ok(n),
    }
}

fn upper_of_opt(key: &Option<ColumnKey>) -> (r: String)
    ensures
        r@ == opt_key_upper(*key),
{
    match key {
        Some(k) => upper_of_key(k),
        None => {
            let r: String = String::new();
            assert(r@ =~= Seq::empty());
            r
        },
    }
}

/// Finds where a new column goes.
pub fn resolve_insert_index(columns: &[Column], t: &Target) -> (r: Result<usize, EditError>)
    ensures
        ({
            let place = insert_index(
                name_uppers(views(columns@)),
                *t,
                opt_key_upper(t.after),
                opt_key_upper(t.before),
            );
            match r {
                Ok(i) => place == Ok::<int, EditError>(i as int) && i <= columns@.len(),
                Err(e) => place == Err::<int, EditError>(e),
            }
        }),
{
    let uppers: Vec<String> = column_uppers(columns);
    let after: String = upper_of_opt(&t.after);
    let before: String = upper_of_opt(&t.before);
    assert(texts(uppers@).len() == columns@.len());
    index_for(&uppers, t, after.as_str(), before.as_str())
}

// What a new column is -----------------------------------------------------

/// A text without the given characters at its start.
pub open spec fn strip_front(s: Seq<char>, c: char) -> Seq<char>
    decreases s.len(),
{
    if s.len() > 0 && s[0] == c {
        strip_front(s.drop_first(), c)
    } else {
        s
    }
}

/// A text without the given characters at its end.
pub open spec fn strip_back(s: Seq<char>, c: char) -> Seq<char>
    decreases s.len(),
{
    if s.len() > 0 && s.last() == c {
        strip_back(s.drop_last(), c)
    } else {
        s
    }
}

/// The numbers that parts spell; nothing where one of them spells none.
pub open spec fn numbers_of(parts: Seq<Seq<char>>) -> Option<Seq<usize>>
    decreases parts.len(),
{
    if parts.len() == 0 {
        Some(Seq::empty())
    } else {
        match numbers_of(parts.drop_last()) {
            None => None,
            Some(d) => match parsed(trimmed(parts.last())) {
                None => None,
                Some(n) => Some(d.push(n)),
            },
        }
    }
}

/// The dimensions of a TDIM that was made for a new column.
pub open spec fn own_dims(s: Seq<char>) -> Option<Seq<usize>> {
    numbers_of(comma_parts(strip_back(strip_front(trimmed(s), '('), ')')))
}

proof fn lemma_numbers_prefix(parts: Seq<Seq<char>>, k: int)
    requires
        0 <= k <= parts.len(),
        numbers_of(parts.take(k)) is None,
    ensures
        numbers_of(parts) is None,
    decreases parts.len(),
{
    if k < parts.len() {
        assert(parts.drop_last().take(k) =~= parts.take(k));
        lemma_numbers_prefix(parts.drop_last(), k);
    } else {
        assert(parts.take(k) =~= parts);
    }
}

/// Reads the TDIM that was made for a new column.
pub fn parse_tdim_for_encode(s: &str) -> (r: Option<Vec<usize>>)
    ensures
        opt_dims(r) == own_dims(s@),
        r matches Some(d) ==> d@.len() > 0,
{
    let whole: Vec<char> = chars_of(s);
    let t: Vec<char> = trim(&whole);
    let n: usize = t.len();
    let mut a: usize = 0;
    assert(t@.skip(0) =~= t@);
    while a < n && t[a] == '('
        invariant
            a <= n == t@.len(),
            strip_front(t@, '(') == strip_front(t@.skip(a as int), '('),
        decreases n - a,
    {
        assert(t@.skip(a as int).drop_first() =~= t@.skip(a + 1));
        a = a + 1;
    }
    let ghost u = t@.skip(a as int);
    assert(strip_front(t@, '(') == u);
    let mut b: usize = n;
    assert(t@.subrange(a as int, n as int) =~= u);
    while b > a && t[b - 1] == ')'
        invariant
            a <= b <= n == t@.len(),
            strip_back(u, ')') == strip_back(t@.subrange(a as int, b as int), ')'),
        decreases b - a,
    {
        assert(t@.subrange(a as int, b as int).drop_last() =~= t@.subrange(a as int, b - 1));
        b = b - 1;
    }
    let inside: Vec<char> = part_of(&t, a, b);
    assert(inside@ =~= t@.subrange(a as int, b as int));
    assert(inside@ == strip_back(u, ')'));
    let parts: Vec<Vec<char>> = split_commas(&inside);
    let ghost cp = comma_parts(inside@);
    proof {
        crate::keywords::lemma_comma_parts(inside@);
        assert(own_dims(s@) == numbers_of(cp));
    }
    let m: usize = parts.len();
    let mut d: Vec<usize> = Vec::new();
    let mut i: usize = 0;
    assert(cp.take(0) =~= Seq::empty());
    while i < m
        invariant
            i <= m == parts@.len() == cp.len(),
            forall|k: int| 0 <= k < m ==> (#[trigger] parts@[k])@ == cp[k],
            numbers_of(cp.take(i as int)) == Some(d@),
            d@.len() == i,
            own_dims(s@) == numbers_of(cp),
        decreases m - i,
    {
        proof {
            assert(cp.take(i + 1).drop_last() =~= cp.take(i as int));
            assert(cp.take(i + 1).last() == parts@[i as int]@);
        }
        let p: Vec<char> = trim(&parts[i]);
        match parse_usize(&p) {
            Some(v) => {
                d.push(v);
            },
            None => {
                proof {
                    lemma_numbers_prefix(cp, i + 1);
                }
                return None;
            },
        }
        i = i + 1;
    }
    assert(cp.take(m as int) =~= cp);
    Some(d)
}

/// Whether the offset of a column to be made is one of those of unsigned
/// integers.
pub open spec fn offset_known(c: WriteColumnView) -> bool {
    c.tzero matches Some(v) ==> v == 0x8000 || v == 0x8000_0000 || v == 0x8000_0000_0000_0000
}

/// The column that takes the values of a column to be made; nothing where its
/// dimensions cannot be read.
pub open spec fn synth_column(c: WriteColumnView) -> Option<ColumnView> {
    let dims = match c.tdim {
        None => Some(None),
        Some(s) => match own_dims(s) {
            Some(d) => Some(Some(d)),
            None => None,
        },
    };
    match dims {
        None => None,
        Some(tdim) => Some(
            ColumnView {
                name: c.name,
                letter: c.letter,
                repeat: c.repeat,
                tdim,
                byte_offset: 0,
                byte_width: c.byte_width,
                var_kind: c.var_kind,
                tscal: ONE_BITS,
                tzero: match c.tzero {
                    Some(v) => offset_bits(v),
                    None => 0,
                },
                tnull: None,
                tunit: c.tunit,
            },
        ),
    }
}

/// Makes the column that takes the values of a column to be made.
pub fn synth_column_for_encode(c: &WriteColumn) -> (r: Option<Column>)
    requires
        offset_known(c@),
    ensures
        match r {
            Some(col) => synth_column(c@) == Some(col@) && crate::columns::dims_present(col@),
            None => synth_column(c@) is None,
        },
{
    let tdim: Option<Vec<usize>> = match &c.tdim {
        None => None,
        Some(s) => match parse_tdim_for_encode(s.as_str()) {
            Some(d) => Some(d),
            None => {
                return None;
            },
        },
    };
    let tunit: Option<String> = match &c.tunit {
        Some(u) => Some(u.clone()),
        None => None,
    };
    let tzero: u64 = match c.tzero {
        Some(v) => if v == 0x8000 {
            TWO_15_BITS
        } else if v == 0x8000_0000 {
            TWO_31_BITS
        } else {
            TWO_63_BITS
        },
        None => 0,
    };
    let col: Column = Column {
        name: c.name.clone(),
        letter: c.letter,
        repeat: c.repeat,
        tdim,
        byte_offset: 0,
        byte_width: c.byte_width,
        var_kind: c.var_kind,
        tscal: ONE_BITS,
        tzero,
        tnull: None,
        tunit,
    };
    Some(col)
}

proof fn lemma_numbers_of_decimals(d: Seq<usize>)
    ensures
        numbers_of(Seq::new(d.len(), |i: int| decimal(d[i] as nat))) == Some(d),
    decreases d.len(),
{
    let parts = Seq::new(d.len(), |i: int| decimal(d[i] as nat));
    if d.len() > 0 {
        let c = d.drop_last();
        lemma_numbers_of_decimals(c);
        assert(parts.drop_last() =~= Seq::new(c.len(), |i: int| decimal(c[i] as nat)));
        let t = decimal(d.last() as nat);
        lemma_decimal_value(d.last() as nat);
        assert(is_digit(t[0]) && is_digit(t[t.len() - 1]));
        lemma_trimmed(t);
        law_decimal_parses(d.last());
        assert(parts.last() == t);
        assert(c.push(d.last()) =~= d);
    } else {
        assert(d =~= Seq::empty());
    }
}

proof fn lemma_joined_ends(d: Seq<usize>)
    requires
        d.len() > 0,
    ensures
        joined(d).len() > 0,
        is_digit(joined(d)[0]),
        is_digit(joined(d).last()),
    decreases d.len(),
{
    let t = decimal(d.last() as nat);
    lemma_decimal_value(d.last() as nat);
    assert(is_digit(t[0]) && is_digit(t[t.len() - 1]));
    if d.len() > 1 {
        lemma_joined_ends(d.drop_last());
    }
}

/// The TDIM that is made for a new column is read as the dimensions that it was
/// made of.
pub proof fn law_own_dims(d: Seq<usize>)
    requires
        d.len() > 0,
    ensures
        own_dims(tdim_text(d)) == Some(d),
{
    let s = tdim_text(d);
    let j = joined(d);
    lemma_joined_ends(d);
    assert(s[0] == '(' && s.last() == ')');
    lemma_trimmed(s);
    let u = j.push(')');
    assert(s.drop_first() =~= u);
    assert(u[0] == j[0]);
    assert(strip_front(s, '(') == strip_front(u, '('));
    assert(strip_front(u, '(') == u);
    assert(u.drop_last() =~= j);
    assert(strip_back(u, ')') == strip_back(j, ')'));
    assert(strip_back(j, ')') == j);
    lemma_joined_parts(d);
    lemma_numbers_of_decimals(d);
}

/// The column that is made of fixed-width elements is one that values can be
/// written into.
pub proof fn lemma_fixed_column(
    name: Seq<char>,
    kind: char,
    itemsize: usize,
    shape: Seq<usize>,
    unit: Option<Seq<char>>,
    bits: bool,
)
    requires
        fixed_column(name, kind, itemsize, shape, unit, bits) is Ok,
    ensures
        ({
            let c = fixed_column(name, kind, itemsize, shape, unit, bits)->Ok_0;
            &&& offset_known(c)
            &&& synth_column(c) is Some
            &&& (forall|i: int| 0 <= i < shape.len() ==> shape[i] > 0) ==> column_ok(
                synth_column(c)->0,
            )
        }),
{
    let c = fixed_column(name, kind, itemsize, shape, unit, bits)->Ok_0;
    let class = scalar_class(kind, itemsize, bits)->Ok_0;
    let dims = field_tdim(class.chars, shape);
    match dims {
        Some(d) => {
            law_own_dims(d);
        },
        None => {},
    }
    if forall|i: int| 0 <= i < shape.len() ==> shape[i] > 0 {
        lemma_shape_product(shape);
        let v = synth_column(c)->0;
        let count = element_count(shape)->0 as int;
        assert(count == product(shape));
        lemma_product_reverse(shape);
        match class.chars {
            Some(n) => {
                assert(n > 0);
                lemma_product_add(seq![n], shape.reverse());
                lemma_product_one(n);
                assert(n * count * 1 == n * count);
            },
            None => {
                assert(count * class.elem_bytes == class.elem_bytes * count) by (nonlinear_arith);
            },
        }
        match dims {
            Some(d) => {
                assert forall|i: int| 0 <= i < d.len() implies d[i] > 0 by {
                    match class.chars {
                        Some(n) => {
                            if i > 0 {
                                assert(d[i] == shape.reverse()[i - 1]);
                            }
                        },
                        None => {
                            assert(d[i] == shape.reverse()[i]);
                        },
                    }
                }
            },
            None => {},
        }
    }
}

/// The column that the values of an array become.
pub open spec fn single_column(
    name: Seq<char>,
    a: ArrayInfo,
    unit: Option<Seq<char>>,
    bits: bool,
) -> Result<WriteColumnView, EditError> {
    if a.shape@.len() == 0 {
        Err(EditError::NoRowAxis)
    } else {
        match fixed_column(name, a.kind, a.itemsize, a.shape@.drop_first(), unit, bits) {
            Err(error) => Err(EditError::Dtype { error }),
            Ok(c) => Ok(c),
        }
    }
}

fn cell_axes(shape: &Vec<usize>) -> (r: Vec<usize>)
    requires
        shape@.len() > 0,
    ensures
        r@ == shape@.drop_first(),
{
    let n: usize = shape.len();
    let mut r: Vec<usize> = Vec::new();
    let mut i: usize = 1;
    assert(r@ =~= shape@.drop_first().take(0));
    while i < n
        invariant
            1 <= i <= n == shape@.len(),
            r@ == shape@.drop_first().take(i - 1),
        decreases n - i,
    {
        r.push(shape[i]);
        i = i + 1;
        assert(r@ =~= shape@.drop_first().take(i - 1));
    }
    assert(r@ =~= shape@.drop_first());
    r
}

fn copy_unit(unit: &Option<String>) -> (r: Option<String>)
    ensures
        opt_text(r) == opt_text(*unit),
{
    match unit {
        Some(u) => Some(u.clone()),
        None => None,
    }
}

/// Makes the column that the values of an array become.
pub fn build_single_write_column(
    name: &str,
    a: &ArrayInfo,
    unit: &Option<String>,
    bits: bool,
) -> (r: Result<WriteColumn, EditError>)
    requires
        a.kind != 'O',
    ensures
        match r {
            Ok(c) => single_column(name@, *a, opt_text(*unit), bits) == Ok::<
                WriteColumnView,
                EditError,
            >(c@),
            Err(e) => single_column(name@, *a, opt_text(*unit), bits) == Err::<
                WriteColumnView,
                EditError,
            >(e),
        },
{
    if a.shape.len() == 0 {
        return Err(EditError::NoRowAxis);
    }
    let upper: String = to_uppercase(name);
    let ghost up = upper@;
    let wanted: Option<BitColumns> = if bits {
        let mut names: Vec<String> = Vec::new();
        names.push(upper.clone());
        proof {
            assert(texts(names@)[0] == up);
            lemma_first_text_at(texts(names@), up, 0);
        }
        Some(BitColumns::Names(names))
    } else {
        None
    };
    let f: Field = Field {
        name: name.to_owned(),
        kind: a.kind,
        itemsize: a.itemsize,
        shape: cell_axes(&a.shape),
        unit: copy_unit(unit),
    };
    match make_column(&f, upper.as_str(), &None, &wanted, Descriptor::P) {
        Ok(c) => Ok(c),
        Err(error) => Err(EditError::Dtype { error }),
    }
}

// Putting a column in ------------------------------------------------------

/// Where a new column goes, or why it does not go anywhere: the heap is not
/// where it should be, or the name is empty or taken. `upper` is the name in
/// upper case.
pub open spec fn insert_place(
    uppers: Seq<Seq<char>>,
    heap: Option<EditError>,
    name: Seq<char>,
    upper: Seq<char>,
    t: Target,
    after: Seq<char>,
    before: Seq<char>,
) -> Result<int, EditError> {
    match heap {
        Some(e) => Err(e),
        None => if name.len() == 0 {
            Err(EditError::EmptyName)
        } else {
            match first_text(uppers, upper) {
                Some(i) => Err(EditError::NameTaken { column: i as usize }),
                None => insert_index(uppers, t, after, before),
            }
        },
    }
}

/// Says where a new column goes.
pub fn check_insert(
    columns: &[Column],
    nrows: usize,
    row_width: usize,
    theap: i64,
    name: &str,
    t: &Target,
) -> (r: Result<usize, EditError>)
    ensures
        ({
            let place = insert_place(
                name_uppers(views(columns@)),
                custom_heap(theap, nrows, row_width),
                name@,
                uppercase(name@),
                *t,
                opt_key_upper(t.after),
                opt_key_upper(t.before),
            );
            match r {
                Ok(i) => place == Ok::<int, EditError>(i as int) && i <= columns@.len(),
                Err(e) => place == Err::<int, EditError>(e),
            }
        }),
{
    let uppers: Vec<String> = column_uppers(columns);
    let upper: String = to_uppercase(name);
    let after: String = upper_of_opt(&t.after);
    let before: String = upper_of_opt(&t.before);
    assert(texts(uppers@).len() == columns@.len());
    insert_with_uppers(
        &uppers,
        nrows,
        row_width,
        theap,
        name,
        upper.as_str(),
        t,
        after.as_str(),
        before.as_str(),
    )
}

/// Says where a new column goes, given the names in upper case.
pub fn insert_with_uppers(
    uppers: &Vec<String>,
    nrows: usize,
    row_width: usize,
    theap: i64,
    name: &str,
    upper: &str,
    t: &Target,
    after: &str,
    before: &str,
) -> (r: Result<usize, EditError>)
    ensures
        ({
            let place = insert_place(
                texts(uppers@),
                custom_heap(theap, nrows, row_width),
                name@,
                upper@,
                *t,
                after@,
                before@,
            );
            match r {
                Ok(i) => place == Ok::<int, EditError>(i as int) && i <= uppers@.len(),
                Err(e) => place == Err::<int, EditError>(e),
            }
        }),
{
    match reject_non_default_theap(theap, nrows, row_width) {
        Err(e) => {
            return Err(e);
        },
        Ok(_) => {},
    }
    let c: Vec<char> = chars_of(name);
    if c.len() == 0 {
        return Err(EditError::EmptyName);
    }
    match position_of(uppers, upper) {
        Some(i) => Err(EditError::NameTaken { column: i }),
        None => index_for(uppers, t, after, before),
    }
}

/// The bytes of the first `k` columns in a row.
pub open spec fn pre_width(cols: Seq<ColumnView>, k: int) -> int
    decreases k,
{
    if k <= 0 {
        0
    } else {
        pre_width(cols, k - 1) + cols[k - 1].byte_width
    }
}

/// The columns before a place take up the row to where the next one starts.
pub proof fn lemma_pre_width(cols: Seq<ColumnView>, width: int, k: int)
    requires
        columns_fill(cols, width),
        0 <= k <= cols.len(),
    ensures
        pre_width(cols, k) == if k < cols.len() {
            cols[k].byte_offset as int
        } else {
            width
        },
    decreases cols.len(), k,
{
    if cols.len() == 0 {
    } else if k < cols.len() {
        let t = cols.drop_last();
        lemma_pre_width(t, cols.last().byte_offset as int, k);
        lemma_pre_same(cols, t, k);
        if k < t.len() {
            assert(t[k] == cols[k]);
        }
    } else {
        lemma_pre_width(cols, width, k - 1);
    }
}

proof fn lemma_pre_same(cols: Seq<ColumnView>, t: Seq<ColumnView>, k: int)
    requires
        0 <= k <= t.len() <= cols.len(),
        forall|i: int| 0 <= i < t.len() ==> t[i] == cols[i],
    ensures
        pre_width(cols, k) == pre_width(t, k),
    decreases k,
{
    if k > 0 {
        lemma_pre_same(cols, t, k - 1);
    }
}

/// The bytes of the first `at` columns in a row.
pub fn width_before(columns: &[Column], at: usize, row_width: usize) -> (r: usize)
    requires
        columns_fill(views(columns@), row_width as int),
        at <= columns@.len(),
    ensures
        r == pre_width(views(columns@), at as int),
        r <= row_width,
{
    proof {
        lemma_pre_width(views(columns@), row_width as int, at as int);
        lemma_columns_fill(views(columns@), row_width as int);
    }
    if at < columns.len() {
        assert(views(columns@)[at as int] == columns@[at as int]@);
        columns[at].byte_offset
    } else {
        row_width
    }
}

/// A new column of fixed-width values.
#[derive(Debug)]
pub struct NewColumn {
    pub column: WriteColumn,
    pub transform: WriteTransform,
    /// The bytes of one value.
    pub size: usize,
}

/// A new column of fixed-width values, the transform of these and the bytes of
/// one of them, or why there is none. Only of objects may be said what cells
/// are made of, and which form descriptors have.
pub open spec fn new_column(
    name: Seq<char>,
    a: ArrayInfo,
    unit: Option<Seq<char>>,
    bits: bool,
    inner: bool,
    format: bool,
    nrows: usize,
) -> Result<(WriteColumnView, WriteTransform, usize), EditError> {
    if inner {
        Err(EditError::InnerWithoutObjects)
    } else if format {
        Err(EditError::FormatWithoutObjects)
    } else {
        match single_column(name, a, unit, bits) {
            Err(e) => Err(e),
            Ok(c) => match array_input(a, synth_column(c)->0, nrows) {
                Err(input) => Err(EditError::Input { input }),
                Ok((t, size)) => Ok((c, t, size)),
            },
        }
    }
}

/// Makes a new column of fixed-width values and checks these.
pub fn plan_new_column(
    name: &str,
    a: &ArrayInfo,
    unit: &Option<String>,
    bits: bool,
    inner: &Option<String>,
    format: &Option<String>,
    nrows: usize,
) -> (r: Result<NewColumn, EditError>)
    requires
        a.kind != 'O',
    ensures
        ({
            let want = new_column(
                name@,
                *a,
                opt_text(*unit),
                bits,
                inner is Some,
                format is Some,
                nrows,
            );
            match r {
                Ok(n) => want == Ok::<(WriteColumnView, WriteTransform, usize), EditError>(
                    (n.column@, n.transform, n.size),
                ),
                Err(e) => want == Err::<(WriteColumnView, WriteTransform, usize), EditError>(e),
            }
        }),
        (forall|i: int| 1 <= i < a.shape@.len() ==> a.shape@[i] > 0) ==> (r matches Ok(n)
            ==> transform_ok(n.transform) && source_size(n.transform) <= n.size && nrows * n.size
            <= a.nbytes && stored_size(n.transform) == n.column.byte_width),
{
    if inner.is_some() {
        return Err(EditError::InnerWithoutObjects);
    }
    if format.is_some() {
        return Err(EditError::FormatWithoutObjects);
    }
    let c: WriteColumn = match build_single_write_column(name, a, unit, bits) {
        Ok(c) => c,
        Err(e) => {
            return Err(e);
        },
    };
    let ghost cells = a.shape@.drop_first();
    proof {
        lemma_fixed_column(name@, a.kind, a.itemsize, cells, opt_text(*unit), bits);
    }
    let col: Column = match synth_column_for_encode(&c) {
        Some(col) => col,
        None => {
            return Err(EditError::TooLarge);
        },
    };
    assert(col@.var_kind is None);
    match acquire_per_column_array(a, &col, nrows) {
        Err(input) => Err(EditError::Input { input }),
        Ok((transform, size)) => {
            proof {
                if forall|i: int| 1 <= i < a.shape@.len() ==> a.shape@[i] > 0 {
                    assert forall|i: int| 0 <= i < cells.len() implies cells[i] > 0 by {
                        assert(cells[i] == a.shape@[i + 1]);
                    }
                    assert(column_ok(col@));
                }
            }
            Ok(NewColumn { column: c, transform, size })
        },
    }
}

/// The form of descriptors that a text asks for: P where it asks for none.
pub open spec fn descriptor_form(format: Option<Seq<char>>) -> Option<Descriptor> {
    match format {
        None => Some(Descriptor::P),
        Some(s) => if s == "P"@ || s == "p"@ {
            Some(Descriptor::P)
        } else if s == "Q"@ || s == "q"@ {
            Some(Descriptor::Q)
        } else {
            None
        },
    }
}

fn descriptor_form_of(format: &Option<String>) -> (r: Option<Descriptor>)
    ensures
        r == descriptor_form(opt_text(*format)),
{
    match format {
        None => Some(Descriptor::P),
        Some(s) => if same_text(s.as_str(), "P") || same_text(s.as_str(), "p") {
            Some(Descriptor::P)
        } else if same_text(s.as_str(), "Q") || same_text(s.as_str(), "q") {
            Some(Descriptor::Q)
        } else {
            None
        },
    }
}

/// A new column of objects.
#[derive(Debug)]
pub struct NewHeapColumn {
    pub column: WriteColumn,
    pub kind: Descriptor,
    pub plans: Vec<VlaCellPlan>,
    /// The bytes of the heap with the new cells.
    pub heap_end: usize,
}

/// What a column of objects is, or why there is none. `bits` asks for truth
/// values as bits.
pub open spec fn object_column(
    name: Seq<char>,
    a: ArrayInfo,
    unit: Option<Seq<char>>,
    inner: Option<Seq<char>>,
    format: Option<Seq<char>>,
    bits: bool,
    nrows: usize,
) -> Result<WriteColumnView, EditError> {
    match inner {
        None => Err(EditError::InnerMissing),
        Some(code) => match descriptor_form(format) {
            None => Err(EditError::NoSuchFormat),
            Some(kind) => if a.shape@.len() == 0 {
                Err(EditError::NoRowAxis)
            } else if a.shape@.len() != 1 || a.shape@[0] != nrows {
                Err(EditError::ObjectAxis { nrows })
            } else {
                match inner_code(code) {
                    None => Err(EditError::Dtype { error: DtypeError::UnsupportedInner }),
                    Some(letter) => Ok(
                        heap_column(name, packed_letter(letter, bits), unit, kind),
                    ),
                }
            },
        },
    }
}

/// A new column of objects, or why there is none: the cells go behind a heap of
/// `pcount` bytes.
pub open spec fn new_heap_column(
    name: Seq<char>,
    a: ArrayInfo,
    cells: Seq<Vec<VarInput>>,
    unit: Option<Seq<char>>,
    inner: Option<Seq<char>>,
    format: Option<Seq<char>>,
    bits: bool,
    nrows: usize,
    pcount: u64,
) -> Result<WriteColumnView, EditError> {
    match object_column(name, a, unit, inner, format, bits, nrows) {
        Err(e) => Err(e),
        Ok(c) => if pcount > usize::MAX {
            Err(EditError::TooLarge)
        } else {
            match rows_error(seq![synth_column(c)->0], cells, pcount as int, nrows as nat) {
                Some(write) => Err(EditError::Objects { write }),
                None => Ok(c),
            }
        },
    }
}

/// Makes a new column of objects, and plans where its cells go in the heap,
/// behind the `pcount` bytes that it has. `cells` has one list: the objects.
pub fn plan_new_heap_column(
    name: &str,
    a: &ArrayInfo,
    cells: &Vec<Vec<VarInput>>,
    unit: &Option<String>,
    inner: &Option<String>,
    format: &Option<String>,
    bits: bool,
    nrows: usize,
    pcount: u64,
) -> (r: Result<NewHeapColumn, EditError>)
    requires
        cells@.len() == 1,
        cells@[0]@.len() == first_axis(*a),
        forall|k: int|
            0 <= k < cells@[0]@.len() ==> crate::vla::var_input_ok(#[trigger] cells@[0]@[k]),
    ensures
        ({
            let want = new_heap_column(
                name@,
                *a,
                cells@,
                opt_text(*unit),
                opt_text(*inner),
                opt_text(*format),
                bits,
                nrows,
                pcount,
            );
            match r {
                Ok(n) => want == Ok::<WriteColumnView, EditError>(n.column@) && n.column.var_kind
                    == Some(n.kind) && ({
                    let cols = seq![synth_column(n.column@)->0];
                    &&& n.heap_end == pcount + rows_bytes(cols, cells@, nrows as int)
                    &&& plans_hold(cols, cells@, pcount as int, n.plans@, 0, nrows as int)
                    &&& cells_ok(cols, cells@, nrows as int)
                }),
                Err(e) => want == Err::<WriteColumnView, EditError>(e),
            }
        }),
{
    let code: &String = match inner {
        None => {
            return Err(EditError::InnerMissing);
        },
        Some(c) => c,
    };
    let kind: Descriptor = match descriptor_form_of(format) {
        None => {
            return Err(EditError::NoSuchFormat);
        },
        Some(k) => k,
    };
    if a.shape.len() == 0 {
        return Err(EditError::NoRowAxis);
    }
    if a.shape.len() != 1 || a.shape[0] != nrows {
        return Err(EditError::ObjectAxis { nrows });
    }
    let letter: Letter = match classify_var_numpy_field(code.as_str()) {
        None => {
            return Err(EditError::Dtype { error: DtypeError::UnsupportedInner });
        },
        Some(l) => packed_letter_of(l, bits),
    };
    if pcount > usize::MAX as u64 {
        return Err(EditError::TooLarge);
    }
    let column: WriteColumn = WriteColumn {
        name: name.to_owned(),
        letter,
        repeat: 1,
        byte_width: crate::columns::descriptor_bytes(kind),
        tzero: None,
        tdim: None,
        tunit: copy_unit(unit),
        var_kind: Some(kind),
    };
    assert(column@ == heap_column(name@, letter, opt_text(*unit), kind));
    let col: Column = match synth_column_for_encode(&column) {
        Some(c) => c,
        None => {
            return Err(EditError::TooLarge);
        },
    };
    let mut cols: Vec<Column> = Vec::new();
    cols.push(col);
    let ghost cv = seq![synth_column(column@)->0];
    assert(views(cols@) =~= cv);
    match plan_vla_heap_layout(&cols, cells, nrows, pcount as usize) {
        Err(write) => Err(EditError::Objects { write }),
        Ok((plans, heap_end)) => {
            let mut all: Vec<Vec<VlaCellPlan>> = plans;
            let ghost first = all@[0];
            assert(plans_hold(cv, cells@, pcount as int, first@, 0, nrows as int));
            let plans: Vec<VlaCellPlan> = all.remove(0);
            Ok(NewHeapColumn { column, kind, plans, heap_end })
        },
    }
}

/// The most elements in a cell.
pub open spec fn most_elements(plans: Seq<VlaCellPlan>) -> usize
    decreases plans.len(),
{
    if plans.len() == 0 {
        0
    } else {
        let m = most_elements(plans.drop_last());
        if plans.last().nelements > m {
            plans.last().nelements
        } else {
            m
        }
    }
}

/// The most elements in a cell.
pub fn longest_cell(plans: &Vec<VlaCellPlan>) -> (r: usize)
    ensures
        r == most_elements(plans@),
{
    let n: usize = plans.len();
    let mut m: usize = 0;
    let mut i: usize = 0;
    assert(plans@.take(0) =~= Seq::empty());
    while i < n
        invariant
            i <= n == plans@.len(),
            m == most_elements(plans@.take(i as int)),
        decreases n - i,
    {
        assert(plans@.take(i + 1).drop_last() =~= plans@.take(i as int));
        if plans[i].nelements > m {
            m = plans[i].nelements;
        }
        i = i + 1;
    }
    assert(plans@.take(n as int) =~= plans@);
    m
}

// Taking a column out ------------------------------------------------------

/// A column that is taken out of the rows: its place, where it starts and ends,
/// and the bytes of a row without it.
#[derive(Clone, Copy, PartialEq, Eq, Structural, Debug)]
pub struct DeletePlan {
    pub column: usize,
    pub pre: usize,
    pub post: usize,
    pub row_width: usize,
}

/// What is taken out of the rows, or why nothing is. `upper` is the name of the
/// key in upper case.
pub open spec fn delete_plan(
    cols: Seq<ColumnView>,
    uppers: Seq<Seq<char>>,
    heap: Option<EditError>,
    row_width: int,
    key: ColumnKey,
    upper: Seq<char>,
) -> Result<DeletePlan, EditError> {
    match heap {
        Some(e) => Err(e),
        None => if cols.len() == 0 {
            Err(EditError::NoColumns)
        } else {
            match key_place(uppers, key, upper) {
                Err(e) => Err(e),
                Ok(i) => Ok(
                    DeletePlan {
                        column: i as usize,
                        pre: pre_width(cols, i) as usize,
                        post: pre_width(cols, i + 1) as usize,
                        row_width: (row_width - cols[i].byte_width) as usize,
                    },
                ),
            }
        },
    }
}

/// Plans to take a column out, given the names in upper case.
pub fn delete_with_uppers(
    columns: &[Column],
    uppers: &Vec<String>,
    nrows: usize,
    row_width: usize,
    theap: i64,
    key: &ColumnKey,
    upper: &str,
) -> (r: Result<DeletePlan, EditError>)
    requires
        columns_fill(views(columns@), row_width as int),
        uppers@.len() == columns@.len(),
    ensures
        r == delete_plan(
            views(columns@),
            texts(uppers@),
            custom_heap(theap, nrows, row_width),
            row_width as int,
            *key,
            upper@,
        ),
        r matches Ok(p) ==> p.column < columns@.len() && p.pre <= p.post <= row_width && p.row_width
            == row_width - (p.post - p.pre),
{
    match reject_non_default_theap(theap, nrows, row_width) {
        Err(e) => {
            return Err(e);
        },
        Ok(_) => {},
    }
    if columns.len() == 0 {
        return Err(EditError::NoColumns);
    }
    match place_of_key(uppers, key, upper) {
        Err(e) => Err(e),
        Ok(column) => {
            let ghost cols = views(columns@);
            proof {
                lemma_columns_fill(cols, row_width as int);
                assert(cols[column as int] == columns@[column as int]@);
            }
            let pre: usize = width_before(columns, column, row_width);
            let post: usize = width_before(columns, column + 1, row_width);
            let w: usize = columns[column].byte_width;
            assert(pre_width(cols, column + 1) == pre_width(cols, column as int) + w);
            Ok(DeletePlan { column, pre, post, row_width: row_width - w })
        },
    }
}

/// Plans to take a column out.
pub fn plan_delete_column(
    columns: &[Column],
    nrows: usize,
    row_width: usize,
    theap: i64,
    key: &ColumnKey,
) -> (r: Result<DeletePlan, EditError>)
    requires
        columns_fill(views(columns@), row_width as int),
    ensures
        r == delete_plan(
            views(columns@),
            name_uppers(views(columns@)),
            custom_heap(theap, nrows, row_width),
            row_width as int,
            *key,
            key_upper(*key),
        ),
        r matches Ok(p) ==> p.column < columns@.len() && p.pre <= p.post <= row_width && p.row_width
            == row_width - (p.post - p.pre),
{
    let uppers: Vec<String> = column_uppers(columns);
    let upper: String = upper_of_key(key);
    assert(texts(uppers@).len() == columns@.len());
    delete_with_uppers(columns, &uppers, nrows, row_width, theap, key, upper.as_str())
}

} // verus!
