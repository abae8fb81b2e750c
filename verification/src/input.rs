//! What a caller gives to be written: records or columns, checked against the
//! table.

use vstd::prelude::*;

use crate::cells::string_len;
use crate::columns::{
    Column, ColumnView, Letter, column_ok, dims_present, element_size, lemma_product_add,
    lemma_product_one, lemma_product_reverse, product, views,
};
use crate::create::{element_count, lemma_shape_product, shape_product_of};
use crate::encode::{
    WriteTransform, column_transform, lemma_transform_width, source_size, stored_size,
    transform_for, transform_ok,
};
use crate::error::{InputError, WriteError};
use crate::fields::{cell_shape, column_expected_shape};
use crate::text::{first_text, position_of, same_text, texts};

verus! {

// What is given ------------------------------------------------------------

/// What is known of an array: its shape, the kind and the size of its elements
/// and the number of its bytes.
#[derive(Debug)]
pub struct ArrayInfo {
    pub is_array: bool,
    pub shape: Vec<usize>,
    pub kind: char,
    pub itemsize: usize,
    pub contiguous: bool,
    pub nbytes: usize,
}

/// A field of an array of records: the shape of its cells, the kind and the
/// size of their elements, and where it stands in a record.
#[derive(Debug)]
pub struct StructField {
    pub name: String,
    pub shape: Vec<usize>,
    pub kind: char,
    pub elem_size: usize,
    pub offset: usize,
    pub size: usize,
}

/// What is known of an array of records.
#[derive(Debug)]
pub struct StructInput {
    pub fields: Option<Vec<StructField>>,
    pub len: usize,
    pub contiguous: bool,
    pub itemsize: usize,
    pub nbytes: usize,
}

/// What a caller gives to be written.
#[derive(Debug)]
pub enum TableInput {
    /// Arrays by name; `None` for a key that is no text.
    Dict { keys: Vec<Option<String>>, arrays: Vec<ArrayInfo> },
    /// Arrays, whose names come beside them.
    List { arrays: Vec<ArrayInfo> },
    /// An array of records.
    Records(StructInput),
    /// Something else, of some length.
    Other { len: usize },
}

/// The names beside what is given.
#[derive(Debug)]
pub enum Names {
    Absent,
    Texts(Vec<String>),
    NotTexts,
}

/// Whether the fields of records lie in the record and are as large as their
/// elements together.
pub open spec fn struct_ok(s: StructInput) -> bool {
    s.fields matches Some(f) ==> forall|i: int|
        0 <= i < f@.len() ==> (#[trigger] f@[i]).size == f@[i].elem_size * product(f@[i].shape@)
            && f@[i].offset + f@[i].size <= s.itemsize
}

// Sources ------------------------------------------------------------------

/// Where the values of a column come from: bytes `offset` to `offset + size` of
/// every stretch of `stride` bytes of a buffer.
#[derive(Clone, Copy, PartialEq, Eq, Structural, Debug)]
pub struct SourceMeta {
    pub buffer: usize,
    pub offset: usize,
    pub stride: usize,
    pub size: usize,
}

/// What is to be written, checked: how each column is transformed and where its
/// values come from.
#[derive(Debug)]
pub struct PreparedInput {
    pub transforms: Vec<WriteTransform>,
    pub metas: Vec<SourceMeta>,
    /// The records lie in memory as the rows do in the file.
    pub layout_matches: bool,
}

/// Whether a source has the bytes that a transform takes, in each of `nrows`
/// rows.
pub open spec fn source_ok(
    t: WriteTransform,
    m: SourceMeta,
    lens: Seq<usize>,
    nrows: usize,
) -> bool {
    &&& transform_ok(t)
    &&& source_size(t) <= m.size
    &&& m.offset + m.size <= m.stride
    &&& m.buffer < lens.len()
    &&& nrows * m.stride <= lens[m.buffer as int]
}

/// Whether what is to be written fits the columns and the buffers of the given
/// lengths.
pub open spec fn prepared_ok(
    p: PreparedInput,
    cols: Seq<ColumnView>,
    lens: Seq<usize>,
    nrows: usize,
    row_width: usize,
) -> bool {
    &&& p.transforms@.len() == cols.len()
    &&& p.metas@.len() == cols.len()
    &&& forall|i: int|
        0 <= i < cols.len() ==> source_ok(p.transforms@[i], #[trigger] p.metas@[i], lens, nrows)
            && stored_size(p.transforms@[i]) == cols[i].byte_width
    &&& p.layout_matches ==> forall|i: int|
        0 <= i < cols.len() ==> (#[trigger] p.metas@[i]).buffer == p.metas@[0].buffer
            && p.metas@[i].stride == row_width && p.metas@[i].offset == cols[i].byte_offset
            && p.metas@[i].size == cols[i].byte_width
}

// One array ----------------------------------------------------------------

/// The transform of an array of the values of a column, and the bytes of one
/// value, or why it is none.
pub open spec fn array_input(a: ArrayInfo, c: ColumnView, nrows: usize) -> Result<
    (WriteTransform, usize),
    InputError,
> {
    if !a.is_array {
        Err(InputError::NotArray)
    } else if a.shape@.len() == 0 || a.shape@[0] != nrows {
        Err(InputError::FirstAxis)
    } else if a.shape@.drop_first() != cell_shape(c) {
        Err(InputError::CellShape)
    } else {
        match transform_for(c, a.kind, a.itemsize) {
            Err(e) => Err(InputError::Transform(e)),
            Ok(t) => match element_count(a.shape@.drop_first()) {
                None => Err(InputError::TooLarge),
                Some(n) => {
                    let size = a.itemsize * n;
                    if size > usize::MAX {
                        Err(InputError::TooLarge)
                    } else if !a.contiguous {
                        Err(InputError::NotContiguous)
                    } else if nrows * size > usize::MAX {
                        Err(InputError::TooLarge)
                    } else if a.nbytes < nrows * size {
                        Err(
                            InputError::ShortBuffer {
                                got: a.nbytes,
                                expected: (nrows * size) as usize,
                            },
                        )
                    } else {
                        Ok((t, size as usize))
                    }
                },
            },
        }
    }
}

fn same_dims(a: &[usize], b: &[usize]) -> (r: bool)
    ensures
        r == (a@ == b@),
{
    let n: usize = a.len();
    if n != b.len() {
        return false;
    }
    let mut i: usize = 0;
    while i < n
        invariant
            i <= n == a@.len() == b@.len(),
            forall|k: int| 0 <= k < i ==> a@[k] == b@[k],
        decreases n - i,
    {
        if a[i] != b[i] {
            return false;
        }
        i = i + 1;
    }
    assert(a@ =~= b@);
    true
}

fn tail_dims(d: &Vec<usize>) -> (r: Vec<usize>)
    requires
        d@.len() > 0,
    ensures
        r@ == d@.drop_first(),
{
    let n: usize = d.len();
    let mut r: Vec<usize> = Vec::new();
    let mut i: usize = 1;
    while i < n
        invariant
            1 <= i <= n == d@.len(),
            r@ == d@.drop_first().take(i - 1),
        decreases n - i,
    {
        r.push(d[i]);
        i = i + 1;
        assert(r@ =~= d@.drop_first().take(i - 1));
    }
    assert(r@ =~= d@.drop_first());
    r
}

/// The elements of a cell fill its column.
pub proof fn lemma_cell_elements(c: ColumnView)
    requires
        column_ok(c),
        c.var_kind is None,
    ensures
        forall|i: int| 0 <= i < cell_shape(c).len() ==> cell_shape(c)[i] > 0,
        c.letter is A ==> string_len(c) * product(cell_shape(c)) == c.repeat,
        !(c.letter is A) ==> product(cell_shape(c)) >= c.repeat,
{
    let s = cell_shape(c);
    match c.tdim {
        Some(d) => {
            lemma_product_reverse(d);
            let rest = d.drop_first();
            lemma_product_reverse(rest);
            assert(d =~= seq![d[0]] + rest);
            lemma_product_add(seq![d[0]], rest);
            lemma_product_one(d[0]);
        },
        None => {
            if c.letter is A {
                assert(product(s) == 1);
                assert(string_len(c) * 1 == c.repeat);
            } else if c.repeat > 1 {
                lemma_product_one(c.repeat);
            }
        },
    }
}

/// The value of an array that goes into a column has the bytes that its
/// transform takes.
proof fn lemma_value_size(c: ColumnView, kind: char, size: usize, total: int)
    requires
        column_ok(c),
        c.var_kind is None,
        transform_for(c, kind, size) is Ok,
        total >= size * product(cell_shape(c)),
    ensures
        source_size(transform_for(c, kind, size)->Ok_0) <= total,
{
    let t = transform_for(c, kind, size)->Ok_0;
    let p = product(cell_shape(c)) as int;
    lemma_transform_width(c, kind, size);
    lemma_cell_elements(c);
    if c.letter is A {
        let l = string_len(c) as int;
        assert(c.byte_width == c.repeat * 1);
        if t is UnicodeToAscii {
            assert((4 * l) * p == 4 * (l * p)) by (nonlinear_arith);
        }
    } else if c.letter is X {
        assert(1 * p == p);
    } else {
        let e = element_size(c.letter)->0 as int;
        let n = c.repeat as int;
        assert(c.byte_width == n * e);
        assert(size == e);
        assert(n * e <= e * p) by (nonlinear_arith)
            requires
                n <= p,
                e >= 0,
        ;
    }
}

/// A value of the shape of the cells of a column, which are not empty, has just
/// the bytes that its transform takes.
pub proof fn law_whole_value(c: ColumnView, kind: char, size: usize)
    requires
        column_ok(c),
        c.var_kind is None,
        c.repeat > 0,
        transform_for(c, kind, size) is Ok,
    ensures
        source_size(transform_for(c, kind, size)->Ok_0) == size * product(cell_shape(c)),
{
    let t = transform_for(c, kind, size)->Ok_0;
    let s = cell_shape(c);
    let p = product(s) as int;
    lemma_transform_width(c, kind, size);
    lemma_cell_elements(c);
    if c.letter is A {
        let l = string_len(c) as int;
        assert(c.byte_width == c.repeat * 1);
        if t is UnicodeToAscii {
            assert((4 * l) * p == 4 * (l * p)) by (nonlinear_arith);
        }
    } else {
        match c.tdim {
            Some(d) => {
                lemma_product_reverse(d);
            },
            None => {
                if c.repeat > 1 {
                    lemma_product_one(c.repeat);
                } else {
                    assert(product(s) == 1);
                }
            },
        }
        assert(p == c.repeat);
        if c.letter is X {
            assert(1 * p == p);
        } else {
            let e = element_size(c.letter)->0 as int;
            assert(c.byte_width == c.repeat * e);
            assert(size == e);
            assert(p * e == e * p) by (nonlinear_arith);
        }
    }
}

/// Checks an array of the values of a column.
pub fn acquire_per_column_array(a: &ArrayInfo, col: &Column, nrows: usize) -> (r: Result<
    (WriteTransform, usize),
    InputError,
>)
    requires
        dims_present(col@),
        col.var_kind is None,
    ensures
        r == array_input(*a, col@, nrows),
        column_ok(col@) ==> (r matches Ok((t, size)) ==> source_ok(
            t,
            SourceMeta { buffer: 0, offset: 0, stride: size, size },
            seq![a.nbytes],
            nrows,
        ) && stored_size(t) == col.byte_width),
{
    if !a.is_array {
        return Err(InputError::NotArray);
    }
    if a.shape.len() == 0 || a.shape[0] != nrows {
        return Err(InputError::FirstAxis);
    }
    let cell: Vec<usize> = tail_dims(&a.shape);
    let expected: Vec<usize> = column_expected_shape(col);
    if !same_dims(&cell, &expected) {
        return Err(InputError::CellShape);
    }
    let t: WriteTransform = match column_transform(col, a.kind, a.itemsize) {
        Ok(t) => t,
        Err(e) => {
            return Err(InputError::Transform(e));
        },
    };
    let n: usize = match shape_product_of(&cell) {
        None => {
            return Err(InputError::TooLarge);
        },
        Some(p) => if p > 1 {
            p
        } else {
            1
        },
    };
    let size: usize = match a.itemsize.checked_mul(n) {
        None => {
            return Err(InputError::TooLarge);
        },
        Some(s) => s,
    };
    if !a.contiguous {
        return Err(InputError::NotContiguous);
    }
    let expected_bytes: usize = match nrows.checked_mul(size) {
        None => {
            return Err(InputError::TooLarge);
        },
        Some(b) => b,
    };
    if a.nbytes < expected_bytes {
        return Err(InputError::ShortBuffer { got: a.nbytes, expected: expected_bytes });
    }
    proof {
        if column_ok(col@) {
            lemma_transform_width(col@, a.kind, a.itemsize);
            lemma_cell_elements(col@);
            lemma_shape_product(cell@);
            lemma_value_size(col@, a.kind, a.itemsize, size as int);
        }
    }
    Ok((t, size))
}

// Columns by name ----------------------------------------------------------

/// What the arrays of the given names are for the first `k` columns, or the
/// first column that has none or cannot take its own.
pub open spec fn columns_input(
    names: Seq<Seq<char>>,
    arrays: Seq<ArrayInfo>,
    cols: Seq<ColumnView>,
    nrows: usize,
    k: nat,
) -> Result<(Seq<WriteTransform>, Seq<SourceMeta>), WriteError>
    decreases k,
{
    if k == 0 {
        Ok((Seq::empty(), Seq::empty()))
    } else {
        let column = (k - 1) as usize;
        match columns_input(names, arrays, cols, nrows, (k - 1) as nat) {
            Err(e) => Err(e),
            Ok((ts, ms)) => match first_text(names, cols[k - 1].name) {
                None => Err(WriteError::MissingColumn { column }),
                Some(i) => match array_input(arrays[i], cols[k - 1], nrows) {
                    Err(error) => Err(WriteError::Column { column, error }),
                    Ok((t, size)) => Ok(
                        (
                            ts.push(t),
                            ms.push(SourceMeta { buffer: i as usize, offset: 0, stride: size, size }),
                        ),
                    ),
                },
            },
        }
    }
}

proof fn lemma_columns_input_prefix(
    names: Seq<Seq<char>>,
    arrays: Seq<ArrayInfo>,
    cols: Seq<ColumnView>,
    nrows: usize,
    m: nat,
    k: nat,
)
    requires
        m <= k,
        columns_input(names, arrays, cols, nrows, m) is Err,
    ensures
        columns_input(names, arrays, cols, nrows, k) == columns_input(
            names,
            arrays,
            cols,
            nrows,
            m,
        ),
    decreases k,
{
    if m < k {
        lemma_columns_input_prefix(names, arrays, cols, nrows, m, (k - 1) as nat);
    }
}

/// The lengths of the buffers of arrays.
pub open spec fn array_lens(arrays: Seq<ArrayInfo>) -> Seq<usize> {
    Seq::new(arrays.len(), |i: int| arrays[i].nbytes)
}

/// Whether all columns have their cells in the rows.
pub open spec fn all_fixed(cols: Seq<ColumnView>) -> bool {
    forall|i: int|
        0 <= i < cols.len() ==> column_ok(#[trigger] cols[i]) && cols[i].var_kind is None
}

fn prepare_columns(
    names: &Vec<String>,
    arrays: &Vec<ArrayInfo>,
    columns: &[Column],
    nrows: usize,
    row_width: usize,
) -> (r: Result<PreparedInput, WriteError>)
    requires
        all_fixed(views(columns@)),
        names@.len() == arrays@.len(),
    ensures
        match columns_input(texts(names@), arrays@, views(columns@), nrows, columns@.len()) {
            Err(e) => r == Err::<PreparedInput, WriteError>(e),
            Ok((ts, ms)) => r matches Ok(p) && p.transforms@ == ts && p.metas@ == ms
                && !p.layout_matches && prepared_ok(
                p,
                views(columns@),
                array_lens(arrays@),
                nrows,
                row_width,
            ),
        },
{
    let n: usize = columns.len();
    let ghost nt = texts(names@);
    let ghost cols = views(columns@);
    let ghost lens = array_lens(arrays@);
    let mut transforms: Vec<WriteTransform> = Vec::new();
    let mut metas: Vec<SourceMeta> = Vec::new();
    let mut i: usize = 0;
    while i < n
        invariant
            i <= n == columns@.len() == cols.len(),
            cols == views(columns@),
            nt == texts(names@),
            lens == array_lens(arrays@),
            all_fixed(cols),
            names@.len() == arrays@.len(),
            transforms@.len() == i,
            metas@.len() == i,
            columns_input(nt, arrays@, cols, nrows, i as nat) == Ok::<
                (Seq<WriteTransform>, Seq<SourceMeta>),
                WriteError,
            >((transforms@, metas@)),
            forall|k: int|
                0 <= k < i ==> source_ok(transforms@[k], #[trigger] metas@[k], lens, nrows)
                    && stored_size(transforms@[k]) == cols[k].byte_width,
        decreases n - i,
    {
        assert(cols[i as int] == columns@[i as int]@);
        match position_of(names, columns[i].name.as_str()) {
            None => {
                proof {
                    lemma_columns_input_prefix(
                        nt,
                        arrays@,
                        cols,
                        nrows,
                        (i + 1) as nat,
                        n as nat,
                    );
                }
                return Err(WriteError::MissingColumn { column: i });
            },
            Some(at) => match acquire_per_column_array(&arrays[at], &columns[i], nrows) {
                Err(error) => {
                    proof {
                        lemma_columns_input_prefix(
                            nt,
                            arrays@,
                            cols,
                            nrows,
                            (i + 1) as nat,
                            n as nat,
                        );
                    }
                    return Err(WriteError::Column { column: i, error });
                },
                Ok((t, size)) => {
                    transforms.push(t);
                    metas.push(SourceMeta { buffer: at, offset: 0, stride: size, size });
                },
            },
        }
        i = i + 1;
    }
    Ok(PreparedInput { transforms, metas, layout_matches: false })
}

/// The first key of a dictionary that is no text or no column, if any.
pub open spec fn keys_error(keys: Seq<Option<String>>, cols: Seq<Seq<char>>) -> Option<WriteError>
    decreases keys.len(),
{
    if keys.len() == 0 {
        None
    } else {
        match keys_error(keys.drop_last(), cols) {
            Some(e) => Some(e),
            None => match keys.last() {
                None => Some(WriteError::KeyNotText { at: (keys.len() - 1) as usize }),
                Some(s) => if first_text(cols, s@) is None {
                    Some(WriteError::ExtraName { at: (keys.len() - 1) as usize })
                } else {
                    None
                },
            },
        }
    }
}

proof fn lemma_keys_error(keys: Seq<Option<String>>, cols: Seq<Seq<char>>, k: int)
    requires
        0 <= k <= keys.len(),
        keys_error(keys.take(k), cols) is Some,
    ensures
        keys_error(keys, cols) == keys_error(keys.take(k), cols),
    decreases keys.len(),
{
    if k < keys.len() {
        assert(keys.drop_last().take(k) =~= keys.take(k));
        lemma_keys_error(keys.drop_last(), cols, k);
    } else {
        assert(keys.take(k) =~= keys);
    }
}

/// The texts among keys that all are texts.
pub open spec fn key_texts(keys: Seq<Option<String>>) -> Seq<Seq<char>> {
    Seq::new(keys.len(), |i: int| keys[i]->0@)
}

/// The names of columns.
pub open spec fn column_names(cols: Seq<ColumnView>) -> Seq<Seq<char>> {
    Seq::new(cols.len(), |i: int| cols[i].name)
}

/// The names of columns.
pub fn names_of_columns(columns: &[Column]) -> (r: Vec<String>)
    ensures
        texts(r@) == column_names(views(columns@)),
        r@.len() == columns@.len(),
{
    let n: usize = columns.len();
    let ghost want = column_names(views(columns@));
    let mut r: Vec<String> = Vec::new();
    let mut i: usize = 0;
    while i < n
        invariant
            i <= n == columns@.len(),
            want == column_names(views(columns@)),
            texts(r@) == want.take(i as int),
        decreases n - i,
    {
        let ghost before = texts(r@);
        let s: String = columns[i].name.clone();
        r.push(s);
        assert(texts(r@) =~= before.push(s@));
        i = i + 1;
        assert(texts(r@) =~= want.take(i as int));
    }
    assert(texts(r@) =~= want);
    r
}

/// Checks the keys of a dictionary, and gives them as texts.
fn check_keys(keys: &Vec<Option<String>>, columns: &[Column]) -> (r: Result<
    Vec<String>,
    WriteError,
>)
    ensures
        match keys_error(keys@, column_names(views(columns@))) {
            Some(e) => r == Err::<Vec<String>, WriteError>(e),
            None => r matches Ok(v) && texts(v@) == key_texts(keys@) && v@.len() == keys@.len(),
        },
{
    let names: Vec<String> = names_of_columns(columns);
    let ghost cols = column_names(views(columns@));
    let n: usize = keys.len();
    let mut r: Vec<String> = Vec::new();
    let mut i: usize = 0;
    assert(keys@.take(0) =~= Seq::empty());
    while i < n
        invariant
            i <= n == keys@.len(),
            texts(names@) == cols,
            cols == column_names(views(columns@)),
            keys_error(keys@.take(i as int), cols) is None,
            texts(r@) == key_texts(keys@).take(i as int),
        decreases n - i,
    {
        proof {
            assert(keys@.take(i + 1).drop_last() =~= keys@.take(i as int));
        }
        match &keys[i] {
            None => {
                proof {
                    lemma_keys_error(keys@, cols, i + 1);
                }
                return Err(WriteError::KeyNotText { at: i });
            },
            Some(s) => {
                if position_of(&names, s.as_str()).is_none() {
                    proof {
                        lemma_keys_error(keys@, cols, i + 1);
                    }
                    return Err(WriteError::ExtraName { at: i });
                }
                let ghost before = texts(r@);
                let t: String = s.clone();
                r.push(t);
                assert(texts(r@) =~= before.push(t@));
            },
        }
        i = i + 1;
        assert(texts(r@) =~= key_texts(keys@).take(i as int));
    }
    assert(keys@.take(n as int) =~= keys@);
    assert(texts(r@) =~= key_texts(keys@));
    Ok(r)
}

/// What a dictionary of arrays is for a table.
pub open spec fn dict_input(
    keys: Seq<Option<String>>,
    arrays: Seq<ArrayInfo>,
    cols: Seq<ColumnView>,
    nrows: usize,
) -> Result<(Seq<WriteTransform>, Seq<SourceMeta>), WriteError> {
    match keys_error(keys, column_names(cols)) {
        Some(e) => Err(e),
        None => columns_input(key_texts(keys), arrays, cols, nrows, cols.len()),
    }
}

/// Checks a dictionary of arrays.
pub fn prepare_dict_input(
    keys: &Vec<Option<String>>,
    arrays: &Vec<ArrayInfo>,
    columns: &[Column],
    nrows: usize,
    row_width: usize,
) -> (r: Result<PreparedInput, WriteError>)
    requires
        all_fixed(views(columns@)),
        keys@.len() == arrays@.len(),
    ensures
        match dict_input(keys@, arrays@, views(columns@), nrows) {
            Err(e) => r == Err::<PreparedInput, WriteError>(e),
            Ok((ts, ms)) => r matches Ok(p) && p.transforms@ == ts && p.metas@ == ms
                && !p.layout_matches && prepared_ok(
                p,
                views(columns@),
                array_lens(arrays@),
                nrows,
                row_width,
            ),
        },
{
    match check_keys(keys, columns) {
        Err(e) => Err(e),
        Ok(names) => prepare_columns(&names, arrays, columns, nrows, row_width),
    }
}

/// The first name of a list that is no column or repeats an earlier one, if
/// any.
pub open spec fn names_error(names: Seq<Seq<char>>, cols: Seq<Seq<char>>) -> Option<WriteError>
    decreases names.len(),
{
    if names.len() == 0 {
        None
    } else {
        let at = (names.len() - 1) as usize;
        match names_error(names.drop_last(), cols) {
            Some(e) => Some(e),
            None => if first_text(cols, names.last()) is None {
                Some(WriteError::ExtraName { at })
            } else if first_text(names.drop_last(), names.last()) is Some {
                Some(WriteError::DuplicateName { at })
            } else {
                None
            },
        }
    }
}

proof fn lemma_names_error(names: Seq<Seq<char>>, cols: Seq<Seq<char>>, k: int)
    requires
        0 <= k <= names.len(),
        names_error(names.take(k), cols) is Some,
    ensures
        names_error(names, cols) == names_error(names.take(k), cols),
    decreases names.len(),
{
    if k < names.len() {
        assert(names.drop_last().take(k) =~= names.take(k));
        lemma_names_error(names.drop_last(), cols, k);
    } else {
        assert(names.take(k) =~= names);
    }
}

fn check_names(names: &Vec<String>, columns: &[Column]) -> (r: Result<(), WriteError>)
    ensures
        match names_error(texts(names@), column_names(views(columns@))) {
            Some(e) => r == Err::<(), WriteError>(e),
            None => r is Ok,
        },
{
    let known: Vec<String> = names_of_columns(columns);
    let ghost cols = column_names(views(columns@));
    let ghost nt = texts(names@);
    let n: usize = names.len();
    let mut seen: Vec<String> = Vec::new();
    let mut i: usize = 0;
    assert(nt.take(0) =~= Seq::empty());
    assert(texts(seen@) =~= Seq::empty());
    while i < n
        invariant
            i <= n == names@.len(),
            texts(known@) == cols,
            cols == column_names(views(columns@)),
            nt == texts(names@),
            names_error(nt.take(i as int), cols) is None,
            texts(seen@) == nt.take(i as int),
        decreases n - i,
    {
        proof {
            assert(nt.take(i + 1).drop_last() =~= nt.take(i as int));
            assert(nt.take(i + 1).last() == names@[i as int]@);
        }
        if position_of(&known, names[i].as_str()).is_none() {
            proof {
                lemma_names_error(nt, cols, i + 1);
            }
            return Err(WriteError::ExtraName { at: i });
        }
        if position_of(&seen, names[i].as_str()).is_some() {
            proof {
                lemma_names_error(nt, cols, i + 1);
            }
            return Err(WriteError::DuplicateName { at: i });
        }
        let ghost before = texts(seen@);
        let s: String = names[i].clone();
        seen.push(s);
        assert(texts(seen@) =~= before.push(s@));
        i = i + 1;
        assert(texts(seen@) =~= nt.take(i as int));
    }
    assert(nt.take(n as int) =~= nt);
    Ok(())
}

/// What a list of arrays with names is for a table.
pub open spec fn list_input(
    arrays: Seq<ArrayInfo>,
    names: Seq<Seq<char>>,
    cols: Seq<ColumnView>,
    nrows: usize,
) -> Result<(Seq<WriteTransform>, Seq<SourceMeta>), WriteError> {
    if arrays.len() != names.len() {
        Err(WriteError::NameCount { arrays: arrays.len() as usize, names: names.len() as usize })
    } else {
        match names_error(names, column_names(cols)) {
            Some(e) => Err(e),
            None => columns_input(names, arrays, cols, nrows, cols.len()),
        }
    }
}

/// Checks a list of arrays with names.
pub fn prepare_list_names_input(
    arrays: &Vec<ArrayInfo>,
    names: &Vec<String>,
    columns: &[Column],
    nrows: usize,
    row_width: usize,
) -> (r: Result<PreparedInput, WriteError>)
    requires
        all_fixed(views(columns@)),
    ensures
        match list_input(arrays@, texts(names@), views(columns@), nrows) {
            Err(e) => r == Err::<PreparedInput, WriteError>(e),
            Ok((ts, ms)) => r matches Ok(p) && p.transforms@ == ts && p.metas@ == ms
                && !p.layout_matches && prepared_ok(
                p,
                views(columns@),
                array_lens(arrays@),
                nrows,
                row_width,
            ),
        },
{
    if arrays.len() != names.len() {
        return Err(WriteError::NameCount { arrays: arrays.len(), names: names.len() });
    }
    match check_names(names, columns) {
        Err(e) => Err(e),
        Ok(_) => prepare_columns(names, arrays, columns, nrows, row_width),
    }
}

// Records ------------------------------------------------------------------

/// The names of the fields of records.
pub open spec fn struct_names(f: Seq<StructField>) -> Seq<Seq<char>> {
    Seq::new(f.len(), |i: int| f[i].name@)
}

fn names_of_fields(f: &Vec<StructField>) -> (r: Vec<String>)
    ensures
        texts(r@) == struct_names(f@),
        r@.len() == f@.len(),
{
    let n: usize = f.len();
    let mut r: Vec<String> = Vec::new();
    let mut i: usize = 0;
    while i < n
        invariant
            i <= n == f@.len(),
            texts(r@) == struct_names(f@).take(i as int),
        decreases n - i,
    {
        let ghost before = texts(r@);
        let s: String = f[i].name.clone();
        r.push(s);
        assert(texts(r@) =~= before.push(s@));
        i = i + 1;
        assert(texts(r@) =~= struct_names(f@).take(i as int));
    }
    assert(texts(r@) =~= struct_names(f@));
    r
}

/// The first name that an earlier one repeats.
pub open spec fn first_repeat(names: Seq<Seq<char>>) -> Option<int>
    decreases names.len(),
{
    if names.len() == 0 {
        None
    } else {
        match first_repeat(names.drop_last()) {
            Some(i) => Some(i),
            None => if first_text(names.drop_last(), names.last()) is Some {
                Some(names.len() - 1)
            } else {
                None
            },
        }
    }
}

proof fn lemma_first_repeat(names: Seq<Seq<char>>, k: int)
    requires
        0 <= k <= names.len(),
        first_repeat(names.take(k)) is Some,
    ensures
        first_repeat(names) == first_repeat(names.take(k)),
    decreases names.len(),
{
    if k < names.len() {
        assert(names.drop_last().take(k) =~= names.take(k));
        lemma_first_repeat(names.drop_last(), k);
    } else {
        assert(names.take(k) =~= names);
    }
}

fn find_repeat(names: &Vec<String>) -> (r: Option<usize>)
    ensures
        match r {
            Some(i) => first_repeat(texts(names@)) == Some(i as int),
            None => first_repeat(texts(names@)) is None,
        },
{
    let ghost nt = texts(names@);
    let n: usize = names.len();
    let mut seen: Vec<String> = Vec::new();
    let mut i: usize = 0;
    assert(nt.take(0) =~= Seq::empty());
    assert(texts(seen@) =~= Seq::empty());
    while i < n
        invariant
            i <= n == names@.len(),
            nt == texts(names@),
            first_repeat(nt.take(i as int)) is None,
            texts(seen@) == nt.take(i as int),
        decreases n - i,
    {
        proof {
            assert(nt.take(i + 1).drop_last() =~= nt.take(i as int));
            assert(nt.take(i + 1).last() == names@[i as int]@);
        }
        if position_of(&seen, names[i].as_str()).is_some() {
            proof {
                lemma_first_repeat(nt, i + 1);
            }
            return Some(i);
        }
        let ghost before = texts(seen@);
        let s: String = names[i].clone();
        seen.push(s);
        assert(texts(seen@) =~= before.push(s@));
        i = i + 1;
        assert(texts(seen@) =~= nt.take(i as int));
    }
    assert(nt.take(n as int) =~= nt);
    None
}

/// The first column that is not among the names.
pub open spec fn first_missing(cols: Seq<Seq<char>>, names: Seq<Seq<char>>) -> Option<int>
    decreases cols.len(),
{
    if cols.len() == 0 {
        None
    } else {
        match first_missing(cols.drop_last(), names) {
            Some(i) => Some(i),
            None => if first_text(names, cols.last()) is None {
                Some(cols.len() - 1)
            } else {
                None
            },
        }
    }
}

proof fn lemma_first_missing(cols: Seq<Seq<char>>, names: Seq<Seq<char>>, k: int)
    requires
        0 <= k <= cols.len(),
        first_missing(cols.take(k), names) is Some,
    ensures
        first_missing(cols, names) == first_missing(cols.take(k), names),
    decreases cols.len(),
{
    if k < cols.len() {
        assert(cols.drop_last().take(k) =~= cols.take(k));
        lemma_first_missing(cols.drop_last(), names, k);
    } else {
        assert(cols.take(k) =~= cols);
    }
}

/// Finds every column among the names.
fn find_columns(columns: &[Column], names: &Vec<String>) -> (r: Result<Vec<usize>, usize>)
    ensures
        match r {
            Ok(v) => first_missing(column_names(views(columns@)), texts(names@)) is None
                && v@.len() == columns@.len() && forall|i: int|
                0 <= i < v@.len() ==> first_text(texts(names@), columns@[i].name@) == Some(
                    #[trigger] v@[i] as int,
                ) && v@[i] < names@.len(),
            Err(i) => first_missing(column_names(views(columns@)), texts(names@)) == Some(i as int),
        },
{
    let n: usize = columns.len();
    let ghost cols = column_names(views(columns@));
    let ghost nt = texts(names@);
    let mut r: Vec<usize> = Vec::new();
    let mut i: usize = 0;
    assert(cols.take(0) =~= Seq::empty());
    while i < n
        invariant
            i <= n == columns@.len(),
            cols == column_names(views(columns@)),
            nt == texts(names@),
            first_missing(cols.take(i as int), nt) is None,
            r@.len() == i,
            forall|k: int|
                0 <= k < i ==> first_text(nt, columns@[k].name@) == Some(#[trigger] r@[k] as int)
                    && r@[k] < names@.len(),
        decreases n - i,
    {
        proof {
            assert(cols.take(i + 1).drop_last() =~= cols.take(i as int));
            assert(cols.take(i + 1).last() == columns@[i as int].name@);
        }
        match position_of(names, columns[i].name.as_str()) {
            None => {
                proof {
                    lemma_first_missing(cols, nt, i + 1);
                }
                return Err(i);
            },
            Some(k) => {
                r.push(k);
            },
        }
        i = i + 1;
    }
    assert(cols.take(n as int) =~= cols);
    Ok(r)
}

/// What the field of a column is for it.
pub open spec fn field_input(f: StructField, c: ColumnView) -> Result<WriteTransform, InputError> {
    if f.shape@ != cell_shape(c) {
        Err(InputError::CellShape)
    } else {
        match transform_for(c, f.kind, f.elem_size) {
            Err(e) => Err(InputError::Transform(e)),
            Ok(t) => Ok(t),
        }
    }
}

/// Checks a field of records for a column.
pub fn validate_field_for_column(f: &StructField, col: &Column) -> (r: Result<
    WriteTransform,
    InputError,
>)
    requires
        column_ok(col@),
    ensures
        r == field_input(*f, col@),
{
    let expected: Vec<usize> = column_expected_shape(col);
    if !same_dims(&f.shape, &expected) {
        return Err(InputError::CellShape);
    }
    match column_transform(col, f.kind, f.elem_size) {
        Ok(t) => Ok(t),
        Err(e) => Err(InputError::Transform(e)),
    }
}

/// What the fields of records are for the first `k` columns.
pub open spec fn fields_input(
    f: Seq<StructField>,
    itemsize: usize,
    cols: Seq<ColumnView>,
    k: nat,
) -> Result<(Seq<WriteTransform>, Seq<SourceMeta>), WriteError>
    decreases k,
{
    if k == 0 {
        Ok((Seq::empty(), Seq::empty()))
    } else {
        let column = (k - 1) as usize;
        let field = f[first_text(struct_names(f), cols[k - 1].name)->0];
        match fields_input(f, itemsize, cols, (k - 1) as nat) {
            Err(e) => Err(e),
            Ok((ts, ms)) => match field_input(field, cols[k - 1]) {
                Err(error) => Err(WriteError::Column { column, error }),
                Ok(t) => Ok(
                    (
                        ts.push(t),
                        ms.push(
                            SourceMeta {
                                buffer: 0,
                                offset: field.offset,
                                stride: itemsize,
                                size: field.size,
                            },
                        ),
                    ),
                ),
            },
        }
    }
}

proof fn lemma_fields_input_prefix(
    f: Seq<StructField>,
    itemsize: usize,
    cols: Seq<ColumnView>,
    m: nat,
    k: nat,
)
    requires
        m <= k,
        fields_input(f, itemsize, cols, m) is Err,
    ensures
        fields_input(f, itemsize, cols, k) == fields_input(f, itemsize, cols, m),
    decreases k,
{
    if m < k {
        lemma_fields_input_prefix(f, itemsize, cols, m, (k - 1) as nat);
    }
}

/// Whether a column lies in the records as in the rows. Bits never do.
pub open spec fn field_matches(f: StructField, m: SourceMeta, c: ColumnView) -> bool {
    &&& f.name@ == c.name
    &&& m.offset == c.byte_offset
    &&& m.size == c.byte_width
    &&& !(c.letter is X)
}

/// Whether the first `k` columns lie in the records as in the rows.
pub open spec fn fields_match(
    f: Seq<StructField>,
    ms: Seq<SourceMeta>,
    cols: Seq<ColumnView>,
    k: int,
) -> bool {
    forall|i: int| 0 <= i < k ==> field_matches(f[i], #[trigger] ms[i], cols[i])
}

proof fn lemma_fields_match_step(
    f: Seq<StructField>,
    before: Seq<SourceMeta>,
    ms: Seq<SourceMeta>,
    cols: Seq<ColumnView>,
    i: int,
)
    requires
        0 <= i == before.len(),
        ms.len() == i + 1,
        before == ms.drop_last(),
    ensures
        fields_match(f, ms, cols, i + 1) == (fields_match(f, before, cols, i) && field_matches(
            f[i],
            ms[i],
            cols[i],
        )),
{
    assert(forall|k: int| 0 <= k < i ==> before[k] == ms[k]);
    if fields_match(f, ms, cols, i + 1) {
        assert(field_matches(f[i], ms[i], cols[i]));
        assert forall|k: int| 0 <= k < i implies field_matches(
            f[k],
            #[trigger] before[k],
            cols[k],
        ) by {
            assert(field_matches(f[k], ms[k], cols[k]));
        }
    }
}

/// What an array of records is for a table.
pub open spec fn records_input(s: StructInput, cols: Seq<ColumnView>, nrows: usize) -> Result<
    (Seq<WriteTransform>, Seq<SourceMeta>),
    WriteError,
> {
    match s.fields {
        None => Err(WriteError::NotStructured),
        Some(f) => {
            let names = struct_names(f@);
            if f@.len() != cols.len() {
                Err(WriteError::ColumnCount { got: f@.len() as usize, want: cols.len() as usize })
            } else if first_repeat(names) is Some {
                Err(WriteError::DuplicateName { at: first_repeat(names)->0 as usize })
            } else if first_missing(column_names(cols), names) is Some {
                Err(
                    WriteError::MissingColumn {
                        column: first_missing(column_names(cols), names)->0 as usize,
                    },
                )
            } else if s.len != nrows {
                Err(WriteError::RowCount { got: s.len, want: nrows })
            } else if !s.contiguous {
                Err(WriteError::NotContiguous)
            } else if s.len * s.itemsize > usize::MAX {
                Err(WriteError::TooLarge)
            } else if s.nbytes < s.len * s.itemsize {
                Err(
                    WriteError::ShortBuffer {
                        got: s.nbytes,
                        expected: (s.len * s.itemsize) as usize,
                    },
                )
            } else {
                fields_input(f@, s.itemsize, cols, cols.len())
            }
        },
    }
}

/// Checks an array of records.
pub fn prepare_structured_input(
    s: &StructInput,
    columns: &[Column],
    nrows: usize,
    row_width: usize,
) -> (r: Result<PreparedInput, WriteError>)
    requires
        all_fixed(views(columns@)),
        struct_ok(*s),
    ensures
        match records_input(*s, views(columns@), nrows) {
            Err(e) => r == Err::<PreparedInput, WriteError>(e),
            Ok((ts, ms)) => r matches Ok(p) && p.transforms@ == ts && p.metas@ == ms
                && p.layout_matches == (s.itemsize == row_width && fields_match(
                s.fields->0@,
                ms,
                views(columns@),
                columns@.len() as int,
            )) && prepared_ok(p, views(columns@), seq![s.nbytes], nrows, row_width),
        },
{
    let f: &Vec<StructField> = match &s.fields {
        None => {
            return Err(WriteError::NotStructured);
        },
        Some(f) => f,
    };
    let n: usize = columns.len();
    if f.len() != n {
        return Err(WriteError::ColumnCount { got: f.len(), want: n });
    }
    let names: Vec<String> = names_of_fields(f);
    match find_repeat(&names) {
        Some(at) => {
            return Err(WriteError::DuplicateName { at });
        },
        None => {},
    }
    let places: Vec<usize> = match find_columns(columns, &names) {
        Err(column) => {
            return Err(WriteError::MissingColumn { column });
        },
        Ok(p) => p,
    };
    if s.len != nrows {
        return Err(WriteError::RowCount { got: s.len, want: nrows });
    }
    if !s.contiguous {
        return Err(WriteError::NotContiguous);
    }
    match s.len.checked_mul(s.itemsize) {
        None => {
            return Err(WriteError::TooLarge);
        },
        Some(expected) => {
            if s.nbytes < expected {
                return Err(WriteError::ShortBuffer { got: s.nbytes, expected });
            }
        },
    }
    let ghost cols = views(columns@);
    let ghost lens = seq![s.nbytes];
    let mut transforms: Vec<WriteTransform> = Vec::new();
    let mut metas: Vec<SourceMeta> = Vec::new();
    let mut layout_matches: bool = s.itemsize == row_width;
    let mut i: usize = 0;
    while i < n
        invariant
            i <= n == columns@.len() == cols.len(),
            n == f@.len() == names@.len() == places@.len(),
            cols == views(columns@),
            all_fixed(cols),
            struct_ok(*s),
            s.fields == Some(*f),
            lens == seq![s.nbytes],
            s.len == nrows,
            s.nbytes >= s.len * s.itemsize,
            texts(names@) == struct_names(f@),
            forall|k: int|
                0 <= k < n ==> first_text(texts(names@), columns@[k].name@) == Some(
                    #[trigger] places@[k] as int,
                ) && places@[k] < names@.len(),
            records_input(*s, cols, nrows) == fields_input(f@, s.itemsize, cols, n as nat),
            transforms@.len() == i,
            metas@.len() == i,
            fields_input(f@, s.itemsize, cols, i as nat) == Ok::<
                (Seq<WriteTransform>, Seq<SourceMeta>),
                WriteError,
            >((transforms@, metas@)),
            layout_matches == (s.itemsize == row_width && fields_match(
                f@,
                metas@,
                cols,
                i as int,
            )),
            forall|k: int|
                0 <= k < i ==> source_ok(transforms@[k], #[trigger] metas@[k], lens, nrows)
                    && stored_size(transforms@[k]) == cols[k].byte_width && metas@[k].buffer == 0
                    && metas@[k].stride == s.itemsize,
        decreases n - i,
    {
        let col: &Column = &columns[i];
        let ghost c = cols[i as int];
        assert(c == col@);
        assert(first_text(texts(names@), columns@[i as int].name@) == Some(
            places@[i as int] as int,
        ));
        let field: &StructField = &f[places[i]];
        let ghost before = metas@;
        match validate_field_for_column(field, col) {
            Err(error) => {
                proof {
                    lemma_fields_input_prefix(f@, s.itemsize, cols, (i + 1) as nat, n as nat);
                }
                return Err(WriteError::Column { column: i, error });
            },
            Ok(t) => {
                proof {
                    lemma_transform_width(c, field.kind, field.elem_size);
                    lemma_value_size(c, field.kind, field.elem_size, field.size as int);
                }
                transforms.push(t);
                metas.push(
                    SourceMeta {
                        buffer: 0,
                        offset: field.offset,
                        stride: s.itemsize,
                        size: field.size,
                    },
                );
            },
        }
        let is_bits: bool = match col.letter {
            Letter::X => true,
            _ => false,
        };
        let here: bool = same_text(f[i].name.as_str(), col.name.as_str()) && field.offset
            == col.byte_offset && field.size == col.byte_width && !is_bits;
        proof {
            assert(metas@[i as int].offset == field.offset && metas@[i as int].size == field.size);
            assert(here == field_matches(f@[i as int], metas@[i as int], c));
            assert(before =~= metas@.drop_last());
            lemma_fields_match_step(f@, before, metas@, cols, i as int);
        }
        if !here {
            layout_matches = false;
        }
        i = i + 1;
    }
    Ok(PreparedInput { transforms, metas, layout_matches })
}

// Any form -----------------------------------------------------------------

/// How many rows what is given has, as far as its form tells.
pub open spec fn input_rows(input: TableInput, names: Names) -> Result<usize, WriteError> {
    match input {
        TableInput::Dict { keys, arrays } => if !(names is Absent) {
            Err(WriteError::NamesWithDict)
        } else if arrays@.len() == 0 {
            Err(WriteError::EmptyData)
        } else {
            Ok(first_axis(arrays@[0]))
        },
        TableInput::List { arrays } => if names is Absent {
            Err(WriteError::NamesMissing)
        } else if arrays@.len() == 0 {
            Err(WriteError::EmptyData)
        } else {
            Ok(first_axis(arrays@[0]))
        },
        TableInput::Records(s) => if !(names is Absent) {
            Err(WriteError::NamesWithArray)
        } else {
            Ok(s.len)
        },
        TableInput::Other { len } => if !(names is Absent) {
            Err(WriteError::NamesWithArray)
        } else {
            Ok(len)
        },
    }
}

/// The first axis of an array; 0 where there is none.
pub open spec fn first_axis(a: ArrayInfo) -> usize {
    if a.shape@.len() > 0 {
        a.shape@[0]
    } else {
        0
    }
}

/// The first axis of an array.
pub fn rows_of_array(a: &ArrayInfo) -> (r: usize)
    ensures
        r == first_axis(*a),
{
    if a.shape.len() > 0 {
        a.shape[0]
    } else {
        0
    }
}

fn no_names(names: &Names) -> (r: bool)
    ensures
        r == (names is Absent),
{
    match names {
        Names::Absent => true,
        _ => false,
    }
}

/// How many rows what is given has, as far as its form tells.
pub fn determine_input_nrows(input: &TableInput, names: &Names) -> (r: Result<usize, WriteError>)
    ensures
        r == input_rows(*input, *names),
{
    match input {
        TableInput::Dict { keys: _, arrays } => if !no_names(names) {
            Err(WriteError::NamesWithDict)
        } else if arrays.len() == 0 {
            Err(WriteError::EmptyData)
        } else {
            Ok(rows_of_array(&arrays[0]))
        },
        TableInput::List { arrays } => if no_names(names) {
            Err(WriteError::NamesMissing)
        } else if arrays.len() == 0 {
            Err(WriteError::EmptyData)
        } else {
            Ok(rows_of_array(&arrays[0]))
        },
        TableInput::Records(s) => if !no_names(names) {
            Err(WriteError::NamesWithArray)
        } else {
            Ok(s.len)
        },
        TableInput::Other { len } => if !no_names(names) {
            Err(WriteError::NamesWithArray)
        } else {
            Ok(*len)
        },
    }
}

/// Whether what is given is in itself sound: as many keys as arrays, and fields
/// that lie in their records.
pub open spec fn input_ok(input: TableInput) -> bool {
    match input {
        TableInput::Dict { keys, arrays } => keys@.len() == arrays@.len(),
        TableInput::Records(s) => struct_ok(s),
        _ => true,
    }
}

/// The lengths of the buffers of what is given.
pub open spec fn input_lens(input: TableInput) -> Seq<usize> {
    match input {
        TableInput::Dict { keys, arrays } => array_lens(arrays@),
        TableInput::List { arrays } => array_lens(arrays@),
        TableInput::Records(s) => seq![s.nbytes],
        TableInput::Other { len } => Seq::empty(),
    }
}

/// What is given, for a table without cells in the heap.
pub open spec fn table_input(
    input: TableInput,
    names: Names,
    cols: Seq<ColumnView>,
    nrows: usize,
) -> Result<(Seq<WriteTransform>, Seq<SourceMeta>), WriteError> {
    match input {
        TableInput::Dict { keys, arrays } => if !(names is Absent) {
            Err(WriteError::NamesWithDict)
        } else {
            dict_input(keys@, arrays@, cols, nrows)
        },
        TableInput::List { arrays } => match names {
            Names::Absent => Err(WriteError::NamesMissing),
            Names::NotTexts => Err(WriteError::NamesNotTexts),
            Names::Texts(n) => list_input(arrays@, texts(n@), cols, nrows),
        },
        TableInput::Records(s) => if !(names is Absent) {
            Err(WriteError::NamesWithArray)
        } else {
            records_input(s, cols, nrows)
        },
        TableInput::Other { len } => if !(names is Absent) {
            Err(WriteError::NamesWithArray)
        } else {
            Err(WriteError::NotTableData)
        },
    }
}

/// Checks what is given for a table without cells in the heap.
pub fn dispatch_write_input(
    input: &TableInput,
    names: &Names,
    columns: &[Column],
    nrows: usize,
    row_width: usize,
) -> (r: Result<PreparedInput, WriteError>)
    requires
        all_fixed(views(columns@)),
        input_ok(*input),
    ensures
        match table_input(*input, *names, views(columns@), nrows) {
            Err(e) => r == Err::<PreparedInput, WriteError>(e),
            Ok((ts, ms)) => r matches Ok(p) && p.transforms@ == ts && p.metas@ == ms && prepared_ok(
                p,
                views(columns@),
                input_lens(*input),
                nrows,
                row_width,
            ) && p.layout_matches == (input matches TableInput::Records(s) && s.itemsize
                == row_width && fields_match(
                s.fields->0@,
                ms,
                views(columns@),
                columns@.len() as int,
            )),
        },
{
    match input {
        TableInput::Dict { keys, arrays } => {
            if !no_names(names) {
                return Err(WriteError::NamesWithDict);
            }
            prepare_dict_input(keys, arrays, columns, nrows, row_width)
        },
        TableInput::List { arrays } => match names {
            Names::Absent => Err(WriteError::NamesMissing),
            Names::NotTexts => Err(WriteError::NamesNotTexts),
            Names::Texts(n) => prepare_list_names_input(arrays, n, columns, nrows, row_width),
        },
        TableInput::Records(s) => {
            if !no_names(names) {
                return Err(WriteError::NamesWithArray);
            }
            prepare_structured_input(s, columns, nrows, row_width)
        },
        TableInput::Other { len: _ } => if !no_names(names) {
            Err(WriteError::NamesWithArray)
        } else {
            Err(WriteError::NotTableData)
        },
    }
}

/// The names of what is given for a table with cells in the heap, or why it does
/// not fit the columns. Nothing may be given that is no column.
pub open spec fn column_places(input: TableInput, names: Names, cols: Seq<Seq<char>>) -> Result<
    Seq<Seq<char>>,
    WriteError,
> {
    match input {
        TableInput::Dict { keys, arrays } => if !(names is Absent) {
            Err(WriteError::NamesWithDict)
        } else {
            match keys_error(keys@, cols) {
                Some(e) => Err(e),
                None => Ok(key_texts(keys@)),
            }
        },
        TableInput::List { arrays } => match names {
            Names::Absent => Err(WriteError::NamesMissing),
            Names::NotTexts => Err(WriteError::NamesNotTexts),
            Names::Texts(n) => if arrays@.len() != n@.len() {
                Err(
                    WriteError::NameCount {
                        arrays: arrays@.len() as usize,
                        names: n@.len() as usize,
                    },
                )
            } else {
                match names_error(texts(n@), cols) {
                    Some(e) => Err(e),
                    None => Ok(texts(n@)),
                }
            },
        },
        TableInput::Records(s) => if !(names is Absent) {
            Err(WriteError::NamesWithArray)
        } else {
            match s.fields {
                None => Err(WriteError::NotStructured),
                Some(f) => match first_missing(cols, struct_names(f@)) {
                    Some(i) => Err(WriteError::MissingColumn { column: i as usize }),
                    None => match names_error(struct_names(f@), cols) {
                        Some(e) => Err(e),
                        None => Ok(struct_names(f@)),
                    },
                },
            }
        },
        TableInput::Other { len } => if !(names is Absent) {
            Err(WriteError::NamesWithArray)
        } else {
            Err(WriteError::NotTableData)
        },
    }
}

/// The place of each column in what is given, or why there is none.
pub open spec fn placed_columns(input: TableInput, names: Names, cols: Seq<ColumnView>) -> Result<
    Seq<int>,
    WriteError,
> {
    match column_places(input, names, column_names(cols)) {
        Err(e) => Err(e),
        Ok(n) => match first_missing(column_names(cols), n) {
            Some(i) => Err(WriteError::MissingColumn { column: i as usize }),
            None => Ok(Seq::new(cols.len(), |i: int| first_text(n, cols[i].name)->0)),
        },
    }
}

fn place_columns(columns: &[Column], names: &Vec<String>) -> (r: Result<Vec<usize>, WriteError>)
    ensures
        match first_missing(column_names(views(columns@)), texts(names@)) {
            Some(i) => r == Err::<Vec<usize>, WriteError>(
                WriteError::MissingColumn { column: i as usize },
            ),
            None => r matches Ok(v) && v@.map_values(|k: usize| k as int) == Seq::new(
                columns@.len(),
                |i: int| first_text(texts(names@), views(columns@)[i].name)->0,
            ) && forall|i: int| 0 <= i < v@.len() ==> v@[i] < names@.len(),
        },
{
    match find_columns(columns, names) {
        Err(column) => Err(WriteError::MissingColumn { column }),
        Ok(v) => {
            proof {
                let want = Seq::new(
                    columns@.len(),
                    |i: int| first_text(texts(names@), views(columns@)[i].name)->0,
                );
                let got = v@.map_values(|k: usize| k as int);
                assert forall|i: int| 0 <= i < want.len() implies got[i] == want[i] by {
                    assert(first_text(texts(names@), columns@[i].name@) == Some(v@[i] as int));
                }
                assert(got =~= want);
            }
            Ok(v)
        },
    }
}

/// Finds the place of each column in what is given, for a table with cells in
/// the heap.
pub fn extract_per_column_inputs(input: &TableInput, names: &Names, columns: &[Column]) -> (r:
    Result<Vec<usize>, WriteError>)
    requires
        input_ok(*input),
    ensures
        match placed_columns(*input, *names, views(columns@)) {
            Err(e) => r == Err::<Vec<usize>, WriteError>(e),
            Ok(places) => r matches Ok(v) && v@.map_values(|i: usize| i as int) == places,
        },
{
    match input {
        TableInput::Dict { keys, arrays: _ } => {
            if !no_names(names) {
                return Err(WriteError::NamesWithDict);
            }
            match check_keys(keys, columns) {
                Err(e) => Err(e),
                Ok(n) => place_columns(columns, &n),
            }
        },
        TableInput::List { arrays } => match names {
            Names::Absent => Err(WriteError::NamesMissing),
            Names::NotTexts => Err(WriteError::NamesNotTexts),
            Names::Texts(n) => {
                if arrays.len() != n.len() {
                    return Err(WriteError::NameCount { arrays: arrays.len(), names: n.len() });
                }
                match check_names(n, columns) {
                    Err(e) => Err(e),
                    Ok(_) => place_columns(columns, n),
                }
            },
        },
        TableInput::Records(s) => {
            if !no_names(names) {
                return Err(WriteError::NamesWithArray);
            }
            match &s.fields {
                None => Err(WriteError::NotStructured),
                Some(f) => {
                    let n: Vec<String> = names_of_fields(f);
                    match place_columns(columns, &n) {
                        Err(e) => Err(e),
                        Ok(v) => match check_names(&n, columns) {
                            Err(e) => Err(e),
                            Ok(_) => Ok(v),
                        },
                    }
                },
            }
        },
        TableInput::Other { len: _ } => if !no_names(names) {
            Err(WriteError::NamesWithArray)
        } else {
            Err(WriteError::NotTableData)
        },
    }
}

} // verus!
