//! What is given for a table: which array or field goes to which column, and
//! what is refused.

use vstd::prelude::*;

use crate::assign::{
    RecordInfo, RowTarget, ValueInfo, last_place, list_written, places_named, row_target,
    slice_written, target_rows,
};
use crate::codes::lemma_axes;
use crate::columns::{ColumnView, column_ok, product};
use crate::encode::{WriteTransform, transform_for};
use crate::error::{InputError, RowError, TransformError};
use crate::fields::cell_shape;
use crate::input::{
    ArrayInfo, Names, SourceMeta, StructField, StructInput, TableInput, array_input, column_names,
    column_places, columns_input, field_input, fields_input, first_missing, first_repeat,
    input_rows, key_texts, keys_error, lemma_cell_elements, names_error, placed_columns,
    records_input, struct_names, table_input,
};
use crate::rows::{pair_le, pairs_sorted, rows_at, slice_rows};
use crate::selected::{law_first_text, law_index, names_place};
use crate::stored::{law_values_taken, takes};
use crate::text::{first_text, texts};

verus! {

/// An array is taken for a column where it has a value for each row, of the shape
/// of the cells, of elements that the column takes, one behind the other.
pub proof fn law_array_taken(a: ArrayInfo, c: ColumnView, nrows: usize)
    requires
        column_ok(c),
        c.var_kind is None,
        c.repeat > 0,
    ensures
        ({
            let fits = a.is_array && a.contiguous && a.shape@ == seq![nrows] + cell_shape(c)
                && takes(c, a.kind, a.itemsize);
            let size = a.itemsize * product(cell_shape(c));
            match array_input(a, c, nrows) {
                Ok((t, s)) => fits && transform_for(c, a.kind, a.itemsize) == Ok::<
                    WriteTransform,
                    TransformError,
                >(t) && s == size && a.nbytes >= nrows * size,
                Err(_) => !fits || a.nbytes < nrows * size || nrows * size > usize::MAX || size
                    > usize::MAX || product(cell_shape(c)) > usize::MAX,
            }
        }),
{
    let s = cell_shape(c);
    lemma_cell_elements(c);
    lemma_axes(s);
    law_values_taken(c, a.kind, a.itemsize);
    if a.shape@.len() > 0 && a.shape@[0] == nrows && a.shape@.drop_first() == s {
        assert(a.shape@ =~= seq![nrows] + s);
    }
    if a.shape@ == seq![nrows] + s {
        assert(a.shape@.drop_first() =~= s);
        assert(a.shape@[0] == nrows);
    }
}

/// Whether the array that column `i` takes is the first one with its name.
pub open spec fn takes_named(
    names: Seq<Seq<char>>,
    arrays: Seq<ArrayInfo>,
    cols: Seq<ColumnView>,
    nrows: usize,
    t: WriteTransform,
    m: SourceMeta,
    i: int,
) -> bool {
    let j = m.buffer as int;
    &&& 0 <= j < names.len()
    &&& names[j] == cols[i].name
    &&& forall|k: int| 0 <= k < j ==> names[k] != cols[i].name
    &&& m.offset == 0
    &&& m.stride == m.size
    &&& array_input(arrays[j], cols[i], nrows) == Ok::<(WriteTransform, usize), InputError>(
        (t, m.size),
    )
}

proof fn lemma_columns_taken(
    names: Seq<Seq<char>>,
    arrays: Seq<ArrayInfo>,
    cols: Seq<ColumnView>,
    nrows: usize,
    k: nat,
)
    requires
        k <= cols.len(),
        names.len() <= usize::MAX,
    ensures
        match columns_input(names, arrays, cols, nrows, k) {
            Ok((ts, ms)) => ts.len() == k && ms.len() == k && forall|i: int|
                0 <= i < k ==> takes_named(names, arrays, cols, nrows, ts[i], #[trigger] ms[i], i),
            Err(_) => exists|i: int|
                0 <= i < k && (!names.contains((#[trigger] cols[i]).name) || exists|j: int|
                    0 <= j < names.len() && #[trigger] names[j] == cols[i].name && array_input(
                        arrays[j],
                        cols[i],
                        nrows,
                    ) is Err),
        },
    decreases k,
{
    if k > 0 {
        lemma_columns_taken(names, arrays, cols, nrows, (k - 1) as nat);
        law_first_text(names, cols[k - 1].name);
        match columns_input(names, arrays, cols, nrows, (k - 1) as nat) {
            Err(_) => {
                let i = choose|i: int|
                    0 <= i < k - 1 && (!names.contains((#[trigger] cols[i]).name) || exists|j: int|
                        0 <= j < names.len() && #[trigger] names[j] == cols[i].name
                            && array_input(arrays[j], cols[i], nrows) is Err);
                assert(0 <= i < k && cols[i] == cols[i]);
            },
            Ok((ts, ms)) => {
                if columns_input(names, arrays, cols, nrows, k) is Err {
                    let c = cols[k - 1];
                    if names.contains(c.name) {
                        let j = first_text(names, c.name)->0;
                        assert(names[j] == c.name);
                    }
                }
            },
        }
    }
}

/// Of arrays with names, each column takes the one with its name. They are
/// refused where a column has none, or has one that it cannot take.
pub proof fn law_arrays_by_name(
    names: Seq<Seq<char>>,
    arrays: Seq<ArrayInfo>,
    cols: Seq<ColumnView>,
    nrows: usize,
)
    requires
        names.len() <= usize::MAX,
    ensures
        match columns_input(names, arrays, cols, nrows, cols.len()) {
            Ok((ts, ms)) => ts.len() == cols.len() && ms.len() == cols.len() && forall|i: int|
                0 <= i < cols.len() ==> takes_named(
                    names,
                    arrays,
                    cols,
                    nrows,
                    ts[i],
                    #[trigger] ms[i],
                    i,
                ),
            Err(_) => exists|i: int|
                0 <= i < cols.len() && (!names.contains((#[trigger] cols[i]).name) || exists|
                    j: int,
                |
                    0 <= j < names.len() && #[trigger] names[j] == cols[i].name && array_input(
                        arrays[j],
                        cols[i],
                        nrows,
                    ) is Err),
        },
{
    lemma_columns_taken(names, arrays, cols, nrows, cols.len());
}

/// The names of arrays are those of columns: a name that is no column, or that
/// stands twice, is refused.
pub proof fn law_names_checked(names: Seq<Seq<char>>, cols: Seq<Seq<char>>)
    ensures
        names_error(names, cols) is None <==> (forall|i: int|
            0 <= i < names.len() ==> cols.contains(#[trigger] names[i])) && (forall|i: int, j: int|
            0 <= i < j < names.len() ==> names[i] != names[j]),
    decreases names.len(),
{
    if names.len() > 0 {
        let p = names.drop_last();
        let n = p.len() as int;
        law_names_checked(p, cols);
        law_first_text(cols, names.last());
        law_first_text(p, names.last());
        assert(forall|i: int| 0 <= i < n ==> p[i] == names[i]);
        assert(names[n] == names.last());
        if names_error(names, cols) is None {
            assert forall|i: int| 0 <= i < names.len() implies cols.contains(
                #[trigger] names[i],
            ) by {
                if i < n {
                    assert(cols.contains(p[i]));
                } else {
                    let j = first_text(cols, names.last())->0;
                    assert(cols[j] == names[i]);
                }
            }
            assert forall|i: int, j: int| 0 <= i < j < names.len() implies names[i] != names[j] by {
                if j == n {
                    assert(p[i] == names[i]);
                    assert(p.contains(p[i]));
                } else {
                    assert(p[i] != p[j]);
                }
            }
        }
        if (forall|i: int| 0 <= i < names.len() ==> cols.contains(#[trigger] names[i])) && (forall|
            i: int,
            j: int,
        |
            0 <= i < j < names.len() ==> names[i] != names[j]) {
            assert forall|i: int| 0 <= i < p.len() implies cols.contains(#[trigger] p[i]) by {
                assert(cols.contains(names[i]));
            }
            assert forall|i: int, j: int| 0 <= i < j < p.len() implies p[i] != p[j] by {
                assert(names[i] != names[j]);
            }
            assert(cols.contains(names[n]));
            if first_text(p, names.last()) is Some {
                let i = first_text(p, names.last())->0;
                assert(names[i] == names[n]);
            }
        }
    }
}

/// The keys of a dictionary are texts, each the name of a column.
pub proof fn law_keys_checked(keys: Seq<Option<String>>, cols: Seq<Seq<char>>)
    ensures
        keys_error(keys, cols) is None <==> forall|i: int|
            0 <= i < keys.len() ==> ((#[trigger] keys[i]) is Some && cols.contains(keys[i]->0@)),
    decreases keys.len(),
{
    if keys.len() > 0 {
        let p = keys.drop_last();
        let n = p.len() as int;
        law_keys_checked(p, cols);
        assert(forall|i: int| 0 <= i < n ==> p[i] == keys[i]);
        assert(keys[n] == keys.last());
        if keys.last() is Some {
            law_first_text(cols, keys.last()->0@);
        }
        if keys_error(keys, cols) is None {
            let j = first_text(cols, keys.last()->0@)->0;
            assert(cols[j] == keys.last()->0@);
        }
        if forall|i: int|
            0 <= i < keys.len() ==> ((#[trigger] keys[i]) is Some && cols.contains(keys[i]->0@)) {
            assert forall|i: int| 0 <= i < p.len() implies ((#[trigger] p[i]) is Some
                && cols.contains(p[i]->0@)) by {
                assert(keys[i] is Some);
            }
            assert(keys[n] is Some);
        }
    }
}

proof fn lemma_fields_taken(f: Seq<StructField>, itemsize: usize, cols: Seq<ColumnView>, k: nat)
    requires
        k <= cols.len(),
        forall|i: int| 0 <= i < cols.len() ==> struct_names(f).contains((#[trigger] cols[i]).name),
    ensures
        match fields_input(f, itemsize, cols, k) {
            Ok((ts, ms)) => ts.len() == k && ms.len() == k && forall|i: int|
                0 <= i < k ==> takes_field(f, itemsize, cols, ts[i], #[trigger] ms[i], i),
            Err(_) => exists|i: int, j: int|
                0 <= i < k && 0 <= j < f.len() && (#[trigger] f[j]).name@ == (
                #[trigger] cols[i]).name && field_input(f[j], cols[i]) is Err,
        },
    decreases k,
{
    if k > 0 {
        lemma_fields_taken(f, itemsize, cols, (k - 1) as nat);
        let names = struct_names(f);
        law_first_text(names, cols[k - 1].name);
        assert(names.contains(cols[k - 1].name));
        let j = first_text(names, cols[k - 1].name)->0;
        assert(names[j] == f[j].name@);
        assert forall|q: int| 0 <= q < j implies (#[trigger] f[q]).name@ != cols[k - 1].name by {
            assert(names[q] == f[q].name@);
        }
        match fields_input(f, itemsize, cols, (k - 1) as nat) {
            Err(_) => {
                let (i, q) = choose|i: int, q: int|
                    0 <= i < k - 1 && 0 <= q < f.len() && (#[trigger] f[q]).name@ == (
                    #[trigger] cols[i]).name && field_input(f[q], cols[i]) is Err;
                assert(f[q].name@ == cols[i].name);
            },
            Ok((ts, ms)) => {
                let field = f[j];
                if field_input(field, cols[k - 1]) is Ok {
                    let t = field_input(field, cols[k - 1])->Ok_0;
                    let m = SourceMeta {
                        buffer: 0,
                        offset: field.offset,
                        stride: itemsize,
                        size: field.size,
                    };
                    assert(field_given(f, itemsize, cols, t, m, k - 1, j));
                } else {
                    assert(f[j].name@ == cols[k - 1].name);
                }
            },
        }
    }
}

/// Whether column `i` takes field `j` of records: the first one with its name,
/// where it lies in a record.
pub open spec fn field_given(
    f: Seq<StructField>,
    itemsize: usize,
    cols: Seq<ColumnView>,
    t: WriteTransform,
    m: SourceMeta,
    i: int,
    j: int,
) -> bool {
    &&& 0 <= j < f.len()
    &&& f[j].name@ == cols[i].name
    &&& forall|k: int| 0 <= k < j ==> (#[trigger] f[k]).name@ != cols[i].name
    &&& m.buffer == 0
    &&& m.offset == f[j].offset
    &&& m.size == f[j].size
    &&& m.stride == itemsize
    &&& f[j].shape@ == cell_shape(cols[i])
    &&& transform_for(cols[i], f[j].kind, f[j].elem_size) == Ok::<WriteTransform, TransformError>(
        t,
    )
}

/// Whether column `i` takes the field of records with its name.
pub open spec fn takes_field(
    f: Seq<StructField>,
    itemsize: usize,
    cols: Seq<ColumnView>,
    t: WriteTransform,
    m: SourceMeta,
    i: int,
) -> bool {
    exists|j: int| #[trigger] field_given(f, itemsize, cols, t, m, i, j)
}

/// Of records, each column takes the field with its name, and there are as many
/// fields as columns, no two of one name.
pub proof fn law_fields_by_name(s: StructInput, cols: Seq<ColumnView>, nrows: usize)
    ensures
        records_input(s, cols, nrows) matches Ok((ts, ms)) ==> s.fields matches Some(f)
            && f@.len() == cols.len() && s.len == nrows && s.contiguous && s.nbytes >= s.len
            * s.itemsize && ts.len() == cols.len() && ms.len() == cols.len() && (forall|i: int|
            0 <= i < cols.len() ==> takes_field(f@, s.itemsize, cols, ts[i], #[trigger] ms[i], i))
            && (forall|i: int, j: int|
            0 <= i < j < f@.len() ==> (#[trigger] f@[i]).name@ != (#[trigger] f@[j]).name@),
{
    if let Some(f) = s.fields {
        let names = struct_names(f@);
        lemma_no_repeat(names);
        if first_repeat(names) is None {
            assert forall|i: int, j: int| 0 <= i < j < f@.len() implies (#[trigger] f@[i]).name@
                != (#[trigger] f@[j]).name@ by {
                assert(names[i] != names[j]);
            }
        }
        if first_missing(column_names(cols), names) is None {
            lemma_none_missing(column_names(cols), names);
            assert forall|i: int| 0 <= i < cols.len() implies names.contains(
                (#[trigger] cols[i]).name,
            ) by {
                assert(column_names(cols)[i] == cols[i].name);
                assert(names.contains(column_names(cols)[i]));
            }
            lemma_fields_taken(f@, s.itemsize, cols, cols.len());
        }
    }
}

proof fn lemma_no_repeat(names: Seq<Seq<char>>)
    ensures
        first_repeat(names) is None ==> forall|i: int, j: int|
            0 <= i < j < names.len() ==> names[i] != names[j],
    decreases names.len(),
{
    if names.len() > 0 {
        let p = names.drop_last();
        lemma_no_repeat(p);
        law_first_text(p, names.last());
        if first_repeat(names) is None {
            assert forall|i: int, j: int| 0 <= i < j < names.len() implies names[i] != names[j] by {
                assert(p[i] == names[i]);
                if j == p.len() {
                    assert(p.contains(p[i]));
                } else {
                    assert(p[j] == names[j]);
                }
            }
        }
    }
}

proof fn lemma_none_missing(cols: Seq<Seq<char>>, names: Seq<Seq<char>>)
    ensures
        first_missing(cols, names) is None <==> forall|i: int|
            0 <= i < cols.len() ==> names.contains(#[trigger] cols[i]),
    decreases cols.len(),
{
    if cols.len() > 0 {
        let p = cols.drop_last();
        lemma_none_missing(p, names);
        law_first_text(names, cols.last());
        assert(forall|i: int| 0 <= i < p.len() ==> p[i] == cols[i]);
        assert(cols[cols.len() - 1] == cols.last());
        if first_missing(cols, names) is None {
            let j = first_text(names, cols.last())->0;
            assert(names[j] == cols.last());
        }
        if forall|i: int| 0 <= i < cols.len() ==> names.contains(#[trigger] cols[i]) {
            assert forall|i: int| 0 <= i < p.len() implies names.contains(#[trigger] p[i]) by {
                assert(names.contains(cols[i]));
            }
            assert(names.contains(cols[cols.len() - 1]));
        }
    }
}

/// Whatever its form, what is given for a table names columns only: records with
/// no names beside them, a dictionary of arrays, or a list of arrays with as many
/// names.
pub proof fn law_input_forms(input: TableInput, names: Names, cols: Seq<ColumnView>, nrows: usize)
    ensures
        table_input(input, names, cols, nrows) is Ok ==> match input {
            TableInput::Dict { keys, arrays } => names is Absent && forall|i: int|
                0 <= i < keys@.len() ==> ((#[trigger] keys@[i]) is Some && column_names(
                    cols,
                ).contains(keys@[i]->0@)),
            TableInput::List { arrays } => names matches Names::Texts(n) && arrays@.len() == n@.len()
                && forall|i: int|
                0 <= i < n@.len() ==> column_names(cols).contains((#[trigger] n@[i])@),
            TableInput::Records(s) => names is Absent && s.fields is Some && s.len == nrows,
            TableInput::Other { len } => false,
        },
{
    match input {
        TableInput::Dict { keys, arrays } => {
            law_keys_checked(keys@, column_names(cols));
        },
        TableInput::List { arrays } => {
            if let Names::Texts(n) = names {
                law_names_checked(texts(n@), column_names(cols));
                assert forall|i: int|
                    0 <= i < n@.len() && names_error(
                        texts(n@),
                        column_names(cols),
                    ) is None implies column_names(cols).contains((#[trigger] n@[i])@) by {
                    assert(texts(n@)[i] == n@[i]@);
                    assert(column_names(cols).contains(texts(n@)[i]));
                }
            }
        },
        _ => {},
    }
}

/// In a table with cells in the heap, each column has its place in what is given:
/// the first with its name.
pub proof fn law_places_by_name(input: TableInput, names: Names, cols: Seq<ColumnView>, i: int)
    requires
        0 <= i < cols.len(),
    ensures
        placed_columns(input, names, cols) matches Ok(places) ==> column_places(
            input,
            names,
            column_names(cols),
        ) matches Ok(given) && places.len() == cols.len() && 0 <= places[i] < given.len()
            && given[places[i]] == cols[i].name && (forall|j: int|
            0 <= j < places[i] ==> given[j] != cols[i].name) && given == match input {
            TableInput::Dict { keys, arrays } => key_texts(keys@),
            TableInput::List { arrays } => match names {
                Names::Texts(n) => texts(n@),
                _ => Seq::empty(),
            },
            TableInput::Records(s) => struct_names(s.fields->0@),
            TableInput::Other { len } => Seq::empty(),
        },
{
    if let Ok(given) = column_places(input, names, column_names(cols)) {
        lemma_none_missing(column_names(cols), given);
        law_first_text(given, cols[i].name);
        assert(column_names(cols)[i] == cols[i].name);
    }
}

// Assignments --------------------------------------------------------------

/// A row is assigned one record, in the row that its index names.
pub proof fn law_row_assigned(i: i64, nrows: usize, v: RecordInfo)
    ensures
        match row_target(i, nrows, v) {
            Ok(r) => names_place(i, nrows as int, r) && v.is_record && v.structured && (
            v.shape@.len() == 0 || (v.shape@.len() == 1 && v.shape@[0] == 1)),
            Err(_) => i >= nrows || i < -nrows || !v.is_record || !v.structured || (v.shape@.len()
                > 0 && v.shape@ != seq![1usize]),
        },
{
    law_index(i, nrows as int);
}

/// A slice of rows is assigned row by row, in steps forward. Nothing is assigned
/// only where there is no row, and then nothing may be given.
pub proof fn law_slice_assigned(
    start: i64,
    stop: i64,
    step: i64,
    nrows: usize,
    v: ValueInfo,
    heap: bool,
)
    ensures
        ({
            let rows = slice_rows(start as int, stop as int, step as int, nrows as int);
            match slice_written(start, stop, step, nrows, v, heap) {
                Ok(Some(s)) => step > 0 && s == rows && (rows.len() as usize) > 0 && v.is_array && (
                heap ==> v.len == Some(rows.len() as usize)),
                Ok(None) => step > 0 && rows.len() as usize == 0 && (v.len is None || v.len
                    == Some(0usize)),
                Err(_) => step <= 0 || !v.is_array || (rows.len() as usize == 0 && v.len is Some
                    && v.len != Some(0usize)) || (heap && v.len != Some(rows.len() as usize)),
            }
        }),
{
}

/// A list of rows is assigned as many elements, in the order of the list.
pub proof fn law_list_assigned(list: Seq<i64>, nrows: usize, v: ValueInfo, heap: bool)
    ensures
        match list_written(list, nrows, v, heap) {
            Ok(Some(s)) => rows_at(list, nrows) == Ok::<Seq<usize>, RowError>(s) && v.is_array
                && v.len == Some(list.len() as usize),
            Ok(None) => list.len() as usize == 0 && v.is_array,
            Err(_) => rows_at(list, nrows) is Err || !v.is_array || v.len != Some(
                list.len() as usize,
            ),
        },
{
}

/// What rows are written of a target: those in a row from the first on, or those
/// of a list.
pub proof fn law_target_rows(t: RowTarget, k: int)
    requires
        0 <= k < target_rows(t).len(),
        t matches RowTarget::Contiguous { first, count } ==> first + count <= usize::MAX,
    ensures
        match t {
            RowTarget::Contiguous { first, count } => target_rows(t).len() == count && target_rows(
                t,
            )[k] == first + k,
            RowTarget::Scattered(v) => target_rows(t).len() == v@.len() && target_rows(t)[k]
                == v@[k],
        },
{
}

/// The columns that are assigned by their names are those that the names find,
/// whatever the case, in the order of the names. No name may stand twice, and for
/// each something is given.
pub proof fn law_columns_assigned(
    cols: Seq<Seq<char>>,
    names: Seq<Seq<char>>,
    fields: Seq<Seq<char>>,
    k: nat,
)
    requires
        k <= names.len(),
    ensures
        match places_named(cols, names, fields, k) {
            Ok(places) => places.len() == k && forall|i: int|
                0 <= i < k ==> first_text(cols, names[i]) == Some(#[trigger] places[i])
                    && fields.contains(names[i]) && forall|j: int|
                    0 <= j < i ==> names[j] != names[i],
            Err(_) => exists|i: int|
                0 <= i < k && (!cols.contains(#[trigger] names[i]) || !fields.contains(names[i])
                    || names.take(i).contains(names[i])),
        },
    decreases k,
{
    if k > 0 {
        law_columns_assigned(cols, names, fields, (k - 1) as nat);
        let name = names[k - 1];
        law_first_text(cols, name);
        law_first_text(fields, name);
        law_first_text(names.take(k - 1), name);
        match places_named(cols, names, fields, (k - 1) as nat) {
            Err(_) => {
                let i = choose|i: int|
                    0 <= i < k - 1 && (!cols.contains(#[trigger] names[i]) || !fields.contains(
                        names[i],
                    ) || names.take(i).contains(names[i]));
                assert(0 <= i < k && names[i] == names[i]);
            },
            Ok(s) => {
                if places_named(cols, names, fields, k) is Ok {
                    assert forall|j: int| 0 <= j < k - 1 implies names[j] != name by {
                        assert(names.take(k - 1)[j] == names[j]);
                        assert(names.take(k - 1).contains(names.take(k - 1)[j]));
                    }
                    let q = first_text(fields, name)->0;
                    assert(fields[q] == name);
                } else if first_text(names.take(k - 1), name) is Some {
                    let q = first_text(names.take(k - 1), name)->0;
                    assert(names.take(k - 1)[q] == name);
                }
            },
        }
    }
}

/// Of the places of a row in a list, the last is the one after which it does not
/// come again.
pub proof fn law_last_place(rows: Seq<usize>, r: int)
    ensures
        match last_place(rows, r) {
            Some(i) => 0 <= i < rows.len() && rows[i] == r && forall|j: int|
                i < j < rows.len() ==> rows[j] != r,
            None => forall|j: int| 0 <= j < rows.len() ==> rows[j] != r,
        },
    decreases rows.len(),
{
    if rows.len() > 0 {
        let p = rows.drop_last();
        law_last_place(p, r);
        assert(forall|j: int| 0 <= j < p.len() ==> p[j] == rows[j]);
    }
}

/// How many rows what is given has: those of its records, or of its first array.
pub proof fn law_rows_given(input: TableInput, names: Names)
    ensures
        match input_rows(input, names) {
            Ok(n) => match input {
                TableInput::Dict { keys, arrays } => names is Absent && arrays@.len() > 0 && n == (
                if arrays@[0].shape@.len() > 0 {
                    arrays@[0].shape@[0] as int
                } else {
                    0
                }),
                TableInput::List { arrays } => !(names is Absent) && arrays@.len() > 0 && n == (
                if arrays@[0].shape@.len() > 0 {
                    arrays@[0].shape@[0] as int
                } else {
                    0
                }),
                TableInput::Records(s) => names is Absent && n == s.len,
                TableInput::Other { len } => names is Absent && n == len,
            },
            Err(_) => match input {
                TableInput::Dict { keys, arrays } => !(names is Absent) || arrays@.len() == 0,
                TableInput::List { arrays } => names is Absent || arrays@.len() == 0,
                _ => !(names is Absent),
            },
        },
{
}

/// In order means that a smaller first number comes first, and of equal ones the
/// smaller second.
pub proof fn law_sorted_pairs(s: Seq<(i64, usize)>, i: int, j: int)
    requires
        pairs_sorted(s),
        0 <= i < j < s.len(),
    ensures
        s[i].0 < s[j].0 || (s[i].0 == s[j].0 && s[i].1 <= s[j].1),
{
    assert(pair_le(s[i], s[j]));
}

} // verus!
