//! Overwriting rows, columns and cells of a table.

use vstd::prelude::*;

use crate::bytes::{ByteOrder, concat, copy_of, lemma_field_splice, pow256, splice};
use crate::columns::{
    Column, ColumnView, Descriptor, Letter, ScalingKind, cell_bytes, column_ok, columns_fill,
    lemma_columns_fill, scaling, scaling_kind, views,
};
use crate::edit::{column_named, column_uppers, find_column_by_name, name_uppers};
use crate::encode::{
    WriteTransform, apply_transform_cell, encoded, source_size, stored_size, transform_ok,
};
use crate::error::{AssignError, CellError, RowError, VarError};
use crate::fields::{NumpyType, cell_shape, field_dtype_and_shape, field_type};
use crate::heap::{
    VarView, descriptor_for, descriptor_value, half_size, heap_span, law_descriptor_round_trip,
    var_value, write_descriptor,
};
use crate::heaptrip::{exact_cell, given_bytes, given_value, law_heap_cell_reads_back};
use crate::heapwrite::{build_vla_heap_buf, rows_heap};
use crate::input::{
    ArrayInfo, PreparedInput, SourceMeta, StructInput, acquire_per_column_array, all_fixed,
    array_input, fields_match, first_axis, prepare_structured_input, prepared_ok, records_input,
    source_ok, struct_ok,
};
use crate::repack::col_field;
use crate::reshape::{descriptor_cells, given_cell};
use crate::rows::{
    lemma_slice_rows, normalize_row_index, normalize_rows, row_at, rows_at, slice_rows, walk_slice,
};
use crate::shuffle::row_of;
use crate::text::{first_text, position_of, texts, to_uppercase, uppercase};
use crate::vla::{
    VarInput, VlaCellPlan, plan_vla_heap_layout, plans_hold, rows_error, serialize_vla_cell,
    validate_vla_cell, var_bytes, var_count, var_input_ok,
};

verus! {

// Rows ---------------------------------------------------------------------

/// What is known of a value that is given for one row.
#[derive(Debug)]
pub struct RecordInfo {
    /// Whether it is an array or a record.
    pub is_record: bool,
    pub structured: bool,
    pub shape: Vec<usize>,
}

/// Whether the value for a row needs an axis, or why it is none.
pub open spec fn one_record(v: RecordInfo) -> Result<bool, AssignError> {
    if !v.is_record {
        Err(AssignError::NotRecord)
    } else if !v.structured {
        Err(AssignError::RecordNotStructured)
    } else if v.shape@.len() == 0 {
        Ok(true)
    } else if v.shape@ == seq![1usize] {
        Ok(false)
    } else {
        Err(AssignError::NotOneRecord)
    }
}

/// Checks the value for a row, and says whether it needs an axis to be an array
/// of one record.
pub fn coerce_to_len1_record(v: &RecordInfo) -> (r: Result<bool, AssignError>)
    ensures
        r == one_record(*v),
{
    if !v.is_record {
        return Err(AssignError::NotRecord);
    }
    if !v.structured {
        return Err(AssignError::RecordNotStructured);
    }
    if v.shape.len() == 0 {
        return Ok(true);
    }
    if v.shape.len() == 1 && v.shape[0] == 1 {
        assert(v.shape@ =~= seq![1usize]);
        return Ok(false);
    }
    Err(AssignError::NotOneRecord)
}

/// The rows that are written: neighbours, which are written together, or rows
/// that are written one by one.
#[derive(Debug)]
pub enum RowTarget {
    Contiguous { first: usize, count: usize },
    Scattered(Vec<usize>),
}

/// The rows that are written, in the order of what is given for them.
pub open spec fn target_rows(t: RowTarget) -> Seq<usize> {
    match t {
        RowTarget::Contiguous { first, count } => Seq::new(
            count as nat,
            |k: int| (first + k) as usize,
        ),
        RowTarget::Scattered(v) => v@,
    }
}

impl RowTarget {
    /// How many rows are written.
    pub fn input_nrows(&self) -> (r: usize)
        ensures
            r == target_rows(*self).len(),
    {
        match self {
            RowTarget::Contiguous { first: _, count } => *count,
            RowTarget::Scattered(v) => v.len(),
        }
    }
}

/// The row that is written, or why none is.
pub open spec fn row_target(i: i64, nrows: usize, v: RecordInfo) -> Result<int, AssignError> {
    match row_at(i, nrows as int) {
        None => Err(AssignError::Row { row: RowError::OutOfRange { index: i, nrows } }),
        Some(r) => match one_record(v) {
            Err(e) => Err(e),
            Ok(_) => Ok(r),
        },
    }
}

/// Says which row is written.
pub fn target_of_row(i: i64, nrows: usize, v: &RecordInfo) -> (r: Result<usize, AssignError>)
    requires
        nrows <= i64::MAX,
    ensures
        match r {
            Ok(k) => row_target(i, nrows, *v) == Ok::<int, AssignError>(k as int) && k < nrows,
            Err(e) => row_target(i, nrows, *v) == Err::<int, AssignError>(e),
        },
{
    match normalize_row_index(i, nrows) {
        Err(row) => Err(AssignError::Row { row }),
        Ok(k) => match coerce_to_len1_record(v) {
            Err(e) => Err(e),
            Ok(_) => Ok(k),
        },
    }
}

/// What is known of a value that is given for several rows.
#[derive(Clone, Copy, PartialEq, Eq, Structural, Debug)]
pub struct ValueInfo {
    pub is_array: bool,
    /// How many elements it has, where it has a length.
    pub len: Option<usize>,
}

/// Whether there is anything to write for no rows.
pub open spec fn nothing_for_none(v: ValueInfo) -> Result<bool, AssignError> {
    match v.len {
        Some(got) => if got != 0 {
            Err(AssignError::NoRows { got })
        } else {
            Ok(false)
        },
        None => Ok(false),
    }
}

/// Whether there are as many elements as rows.
pub open spec fn length_for(v: ValueInfo, want: usize) -> Result<bool, AssignError> {
    match v.len {
        None => Err(AssignError::NotSized),
        Some(got) => if got != want {
            Err(AssignError::Length { got, want })
        } else {
            Ok(true)
        },
    }
}

/// Whether there are rows to write in a slice of fixed-width rows.
pub open spec fn value_for_slice(v: ValueInfo, count: usize) -> Result<bool, AssignError> {
    if !v.is_array {
        Err(AssignError::NotArray)
    } else if count == 0 {
        nothing_for_none(v)
    } else {
        Ok(true)
    }
}

/// Whether there are rows to write in a slice of rows with cells in the heap.
pub open spec fn value_for_heap_slice(v: ValueInfo, count: usize) -> Result<bool, AssignError> {
    if count == 0 {
        nothing_for_none(v)
    } else if !v.is_array {
        Err(AssignError::NotArray)
    } else {
        length_for(v, count)
    }
}

/// Whether there are rows to write in a list of rows.
pub open spec fn value_for_list(v: ValueInfo, count: usize) -> Result<bool, AssignError> {
    if !v.is_array {
        Err(AssignError::NotArray)
    } else if count == 0 {
        nothing_for_none(v)
    } else {
        length_for(v, count)
    }
}

fn check_nothing(v: ValueInfo) -> (r: Result<bool, AssignError>)
    ensures
        r == nothing_for_none(v),
{
    match v.len {
        Some(got) => if got != 0 {
            Err(AssignError::NoRows { got })
        } else {
            Ok(false)
        },
        None => Ok(false),
    }
}

fn check_length(v: ValueInfo, want: usize) -> (r: Result<bool, AssignError>)
    ensures
        r == length_for(v, want),
{
    match v.len {
        None => Err(AssignError::NotSized),
        Some(got) => if got != want {
            Err(AssignError::Length { got, want })
        } else {
            Ok(true)
        },
    }
}

fn check_slice(v: ValueInfo, count: usize) -> (r: Result<bool, AssignError>)
    ensures
        r == value_for_slice(v, count),
{
    if !v.is_array {
        Err(AssignError::NotArray)
    } else if count == 0 {
        check_nothing(v)
    } else {
        Ok(true)
    }
}

fn check_heap_slice(v: ValueInfo, count: usize) -> (r: Result<bool, AssignError>)
    ensures
        r == value_for_heap_slice(v, count),
{
    if count == 0 {
        check_nothing(v)
    } else if !v.is_array {
        Err(AssignError::NotArray)
    } else {
        check_length(v, count)
    }
}

fn check_list(v: ValueInfo, count: usize) -> (r: Result<bool, AssignError>)
    ensures
        r == value_for_list(v, count),
{
    if !v.is_array {
        Err(AssignError::NotArray)
    } else if count == 0 {
        check_nothing(v)
    } else {
        check_length(v, count)
    }
}

/// The rows of a slice of positive step.
fn slice_target(start: i64, stop: i64, step: i64, nrows: usize) -> (r: RowTarget)
    requires
        step > 0,
        nrows <= i64::MAX,
    ensures
        target_rows(r) == slice_rows(start as int, stop as int, step as int, nrows as int),
{
    let rows: Vec<usize> = walk_slice(start, stop, step, nrows);
    let count: usize = rows.len();
    if step == 1 && count > 0 {
        proof {
            lemma_slice_rows(start as int, stop as int, step as int, nrows);
        }
        let t: RowTarget = RowTarget::Contiguous { first: rows[0], count };
        proof {
            assert(rows@[0] == start + 0 * step);
            assert forall|k: int| 0 <= k < count implies target_rows(t)[k] == rows@[k] by {
                assert(rows@[k] == start + k * step);
                assert(k * step == k) by (nonlinear_arith)
                    requires
                        step == 1,
                ;
            }
            assert(target_rows(t) =~= rows@);
        }
        t
    } else {
        RowTarget::Scattered(rows)
    }
}

/// The rows of a slice that are written, if any.
pub open spec fn slice_written(
    start: i64,
    stop: i64,
    step: i64,
    nrows: usize,
    v: ValueInfo,
    heap: bool,
) -> Result<Option<Seq<usize>>, AssignError> {
    let rows = slice_rows(start as int, stop as int, step as int, nrows as int);
    if step <= 0 {
        Err(AssignError::Step)
    } else {
        match if heap {
            value_for_heap_slice(v, rows.len() as usize)
        } else {
            value_for_slice(v, rows.len() as usize)
        } {
            Err(e) => Err(e),
            Ok(false) => Ok(None),
            Ok(true) => Ok(Some(rows)),
        }
    }
}

/// Says which rows of a slice are written. `heap` says whether cells of the
/// table are in the heap.
pub fn target_of_slice(
    start: i64,
    stop: i64,
    step: i64,
    nrows: usize,
    v: ValueInfo,
    heap: bool,
) -> (r: Result<Option<RowTarget>, AssignError>)
    requires
        nrows <= i64::MAX,
    ensures
        match slice_written(start, stop, step, nrows, v, heap) {
            Err(e) => r == Err::<Option<RowTarget>, AssignError>(e),
            Ok(None) => r == Ok::<Option<RowTarget>, AssignError>(None),
            Ok(Some(rows)) => r matches Ok(Some(t)) && target_rows(t) == rows,
        },
{
    if step <= 0 {
        return Err(AssignError::Step);
    }
    let t: RowTarget = slice_target(start, stop, step, nrows);
    let count: usize = t.input_nrows();
    let some: bool = match if heap {
        check_heap_slice(v, count)
    } else {
        check_slice(v, count)
    } {
        Err(e) => {
            return Err(e);
        },
        Ok(b) => b,
    };
    if some {
        Ok(Some(t))
    } else {
        Ok(None)
    }
}

/// The rows of a list that are written, if any. Where cells are in the heap,
/// what is given is looked at before the rows are.
pub open spec fn list_written(
    list: Seq<i64>,
    nrows: usize,
    v: ValueInfo,
    heap: bool,
) -> Result<Option<Seq<usize>>, AssignError> {
    let count = list.len() as usize;
    let rows = rows_at(list, nrows);
    if !heap && rows is Err {
        Err(AssignError::Row { row: rows->Err_0 })
    } else {
        match value_for_list(v, count) {
            Err(e) => Err(e),
            Ok(false) => Ok(None),
            Ok(true) => match rows {
                Err(row) => Err(AssignError::Row { row }),
                Ok(s) => Ok(Some(s)),
            },
        }
    }
}

/// Says which rows of a list are written.
pub fn target_of_list(list: &Vec<i64>, nrows: usize, v: ValueInfo, heap: bool) -> (r: Result<
    Option<RowTarget>,
    AssignError,
>)
    requires
        nrows <= i64::MAX,
    ensures
        match list_written(list@, nrows, v, heap) {
            Err(e) => r == Err::<Option<RowTarget>, AssignError>(e),
            Ok(None) => r == Ok::<Option<RowTarget>, AssignError>(None),
            Ok(Some(rows)) => r matches Ok(Some(t)) && target_rows(t) == rows,
        },
{
    let count: usize = list.len();
    let rows: Result<Vec<usize>, RowError> = normalize_rows(list, nrows);
    if !heap {
        match &rows {
            Err(row) => {
                return Err(AssignError::Row { row: *row });
            },
            Ok(_) => {},
        }
    }
    let some: bool = match check_list(v, count) {
        Err(e) => {
            return Err(e);
        },
        Ok(b) => b,
    };
    if !some {
        return Ok(None);
    }
    match rows {
        Err(row) => Err(AssignError::Row { row }),
        Ok(s) => Ok(Some(RowTarget::Scattered(s))),
    }
}

/// Checks what is given for so many rows of a table without a heap.
pub fn prepare_rows(
    s: &StructInput,
    columns: &[Column],
    count: usize,
    row_width: usize,
) -> (r: Result<PreparedInput, AssignError>)
    requires
        all_fixed(views(columns@)),
        struct_ok(*s),
    ensures
        match records_input(*s, views(columns@), count) {
            Err(write) => r == Err::<PreparedInput, AssignError>(AssignError::Write { write }),
            Ok((ts, ms)) => r matches Ok(p) && p.transforms@ == ts && p.metas@ == ms
                && p.layout_matches == (s.itemsize == row_width && fields_match(
                s.fields->0@,
                ms,
                views(columns@),
                columns@.len() as int,
            )) && prepared_ok(p, views(columns@), seq![s.nbytes], count, row_width),
        },
{
    match prepare_structured_input(s, columns, count, row_width) {
        Err(write) => Err(AssignError::Write { write }),
        Ok(p) => Ok(p),
    }
}

/// Rows of `rw` bytes from `data` on, after what is given for rows has been
/// written, one after the other.
pub open spec fn rows_set(
    file: Seq<u8>,
    data: int,
    rw: int,
    rows: Seq<usize>,
    values: Seq<Seq<u8>>,
) -> Seq<u8>
    decreases rows.len(),
{
    if rows.len() == 0 {
        file
    } else {
        splice(
            rows_set(file, data, rw, rows.drop_last(), values.drop_last()),
            data + rows.last() * rw,
            values.last(),
        )
    }
}

/// The last place of a row in a list.
pub open spec fn last_place(rows: Seq<usize>, r: int) -> Option<int>
    decreases rows.len(),
{
    if rows.len() == 0 {
        None
    } else if rows.last() == r {
        Some(rows.len() - 1)
    } else {
        last_place(rows.drop_last(), r)
    }
}

/// Of rows that are written, each one is what was given for it last, each other
/// row stays, and so does all that is no row.
pub proof fn law_last_write_wins(
    file: Seq<u8>,
    data: int,
    rw: int,
    nrows: int,
    rows: Seq<usize>,
    values: Seq<Seq<u8>>,
)
    requires
        0 <= data,
        0 <= rw,
        data + nrows * rw <= file.len(),
        values.len() == rows.len(),
        forall|i: int| 0 <= i < rows.len() ==> rows[i] < nrows,
        forall|i: int| 0 <= i < values.len() ==> (#[trigger] values[i]).len() == rw,
    ensures
        ({
            let after = rows_set(file, data, rw, rows, values);
            &&& after.len() == file.len()
            &&& forall|r: int|
                0 <= r < nrows ==> #[trigger] row_of(after, data, rw, r) == (match last_place(
                    rows,
                    r,
                ) {
                    Some(i) => values[i],
                    None => row_of(file, data, rw, r),
                })
            &&& forall|i: int|
                0 <= i < file.len() && !(data <= i < data + nrows * rw) ==> #[trigger] after[i]
                    == file[i]
        }),
    decreases rows.len(),
{
    if rows.len() > 0 {
        let t = rows.drop_last();
        let u = values.drop_last();
        assert forall|i: int| 0 <= i < u.len() implies (#[trigger] u[i]).len() == rw by {
            assert(u[i] == values[i]);
        }
        assert(forall|i: int| 0 <= i < t.len() ==> t[i] == rows[i]);
        law_last_write_wins(file, data, rw, nrows, t, u);
        let before = rows_set(file, data, rw, t, u);
        let after = rows_set(file, data, rw, rows, values);
        let q = rows.last() as int;
        let v = values.last();
        assert(rows[rows.len() - 1] < nrows);
        assert(values[values.len() - 1].len() == rw);
        crate::bytes::lemma_unit_below(q, nrows, rw);
        assert forall|r: int| 0 <= r < nrows implies #[trigger] row_of(after, data, rw, r) == (
        match last_place(rows, r) {
            Some(i) => values[i],
            None => row_of(file, data, rw, r),
        }) by {
            crate::bytes::lemma_unit_below(r, nrows, rw);
            if r == q {
                assert(row_of(after, data, rw, r) =~= v);
            } else {
                if r < q {
                    crate::bytes::lemma_unit_below(r, q, rw);
                } else {
                    crate::bytes::lemma_unit_below(q, r, rw);
                }
                assert(row_of(after, data, rw, r) =~= row_of(before, data, rw, r));
                lemma_last_place(t, r);
                match last_place(t, r) {
                    Some(i) => {
                        assert(u[i] == values[i]);
                    },
                    None => {},
                }
            }
        }
    }
}

pub proof fn lemma_last_place(rows: Seq<usize>, r: int)
    ensures
        last_place(rows, r) matches Some(i) ==> 0 <= i < rows.len() && rows[i] == r,
    decreases rows.len(),
{
    if rows.len() > 0 {
        lemma_last_place(rows.drop_last(), r);
    }
}

// Columns ------------------------------------------------------------------

/// A column that is overwritten.
#[derive(Clone, Copy, PartialEq, Eq, Structural, Debug)]
pub enum ColumnWrite {
    /// Fixed-width values; `size` are the bytes of one.
    Fixed { column: usize, transform: WriteTransform, size: usize },
    /// Cells in the heap.
    Heap { column: usize },
}

/// What is written over a column, or why nothing is. `column` is its place.
/// Cells for the heap are looked at later.
pub open spec fn column_written(
    cols: Seq<ColumnView>,
    column: Option<int>,
    a: ArrayInfo,
    nrows: usize,
) -> Result<ColumnWrite, AssignError> {
    match column {
        None => Err(AssignError::UnknownColumn),
        Some(i) => if cols[i].var_kind is Some {
            Ok(ColumnWrite::Heap { column: i as usize })
        } else {
            match array_input(a, cols[i], nrows) {
                Err(input) => Err(AssignError::Input { input }),
                Ok((transform, size)) => Ok(
                    ColumnWrite::Fixed { column: i as usize, transform, size },
                ),
            }
        },
    }
}

/// Checks what is given for the column at a place.
pub fn column_at(columns: &[Column], column: Option<usize>, a: &ArrayInfo, nrows: usize) -> (r:
    Result<ColumnWrite, AssignError>)
    requires
        forall|i: int| 0 <= i < columns@.len() ==> column_ok(#[trigger] views(columns@)[i]),
        column matches Some(i) ==> i < columns@.len(),
    ensures
        r == column_written(
            views(columns@),
            match column {
                Some(i) => Some(i as int),
                None => None,
            },
            *a,
            nrows,
        ),
        r matches Ok(ColumnWrite::Fixed { column: i, transform, size }) ==> source_ok(
            transform,
            SourceMeta { buffer: 0, offset: 0, stride: size, size },
            seq![a.nbytes],
            nrows,
        ) && stored_size(transform) == columns@[i as int].byte_width,
{
    match column {
        None => Err(AssignError::UnknownColumn),
        Some(i) => {
            assert(views(columns@)[i as int] == columns@[i as int]@);
            assert(column_ok(views(columns@)[i as int]));
            if columns[i].var_kind.is_some() {
                return Ok(ColumnWrite::Heap { column: i });
            }
            match acquire_per_column_array(a, &columns[i], nrows) {
                Err(input) => Err(AssignError::Input { input }),
                Ok((transform, size)) => Ok(ColumnWrite::Fixed { column: i, transform, size }),
            }
        },
    }
}

/// Checks what is given for a column.
pub fn plan_set_column(columns: &[Column], name: &str, a: &ArrayInfo, nrows: usize) -> (r: Result<
    ColumnWrite,
    AssignError,
>)
    requires
        forall|i: int| 0 <= i < columns@.len() ==> column_ok(#[trigger] views(columns@)[i]),
    ensures
        r == column_written(
            views(columns@),
            column_named(views(columns@), name@),
            *a,
            nrows,
        ),
{
    column_at(columns, find_column_by_name(columns, name), a, nrows)
}

/// The places of the first `k` of the names of columns, or the first name that
/// repeats an earlier one, that no column has or that nothing is given for. The
/// names are in upper case.
pub open spec fn places_named(
    cols: Seq<Seq<char>>,
    names: Seq<Seq<char>>,
    fields: Seq<Seq<char>>,
    k: nat,
) -> Result<Seq<int>, AssignError>
    decreases k,
{
    if k == 0 {
        Ok(Seq::empty())
    } else {
        let at = (k - 1) as usize;
        let name = names[k - 1];
        match places_named(cols, names, fields, (k - 1) as nat) {
            Err(e) => Err(e),
            Ok(s) => if first_text(names.take(k - 1), name) is Some {
                Err(AssignError::DuplicateName { at })
            } else {
                match first_text(cols, name) {
                    None => Err(AssignError::UnknownName { at }),
                    Some(i) => if first_text(fields, name) is None {
                        Err(AssignError::MissingField { at })
                    } else {
                        Ok(s.push(i))
                    },
                }
            },
        }
    }
}

proof fn lemma_places_named(
    cols: Seq<Seq<char>>,
    names: Seq<Seq<char>>,
    fields: Seq<Seq<char>>,
    m: nat,
    k: nat,
)
    requires
        m <= k,
        places_named(cols, names, fields, m) is Err,
    ensures
        places_named(cols, names, fields, k) == places_named(cols, names, fields, m),
    decreases k,
{
    if m < k {
        lemma_places_named(cols, names, fields, m, (k - 1) as nat);
    }
}

/// The columns that are overwritten, or why none are. Names are in upper case;
/// `fields` are those of what is given, where it has any.
pub open spec fn columns_written(
    cols: Seq<Seq<char>>,
    names: Seq<Seq<char>>,
    fields: Option<Seq<Seq<char>>>,
    v: ValueInfo,
    nrows: usize,
) -> Result<Seq<int>, AssignError> {
    if names.len() == 0 {
        Err(AssignError::EmptyNames)
    } else if !v.is_array {
        Err(AssignError::NotArray)
    } else {
        match length_for(v, nrows) {
            Err(e) => Err(e),
            Ok(_) => match fields {
                None => Err(AssignError::NotStructured),
                Some(f) => places_named(cols, names, f, names.len()),
            },
        }
    }
}

/// Whether a text stands among the first `k` of a list.
fn stands_before(list: &Vec<String>, want: &str, k: usize) -> (r: bool)
    requires
        k <= list@.len(),
    ensures
        r == (first_text(texts(list@).take(k as int), want@) is Some),
{
    let ghost t = texts(list@);
    let mut i: usize = 0;
    while i < k
        invariant
            i <= k <= list@.len() == t.len(),
            t == texts(list@),
            forall|j: int| 0 <= j < i ==> t[j] != want@,
        decreases k - i,
    {
        if crate::text::same_text(list[i].as_str(), want) {
            proof {
                crate::text::lemma_first_text(t.take(k as int), want@);
                assert(t.take(k as int)[i as int] == want@);
            }
            return true;
        }
        i = i + 1;
    }
    proof {
        crate::text::lemma_first_text(t.take(k as int), want@);
        match first_text(t.take(k as int), want@) {
            Some(j) => {
                assert(t.take(k as int)[j] == t[j]);
            },
            None => {},
        }
    }
    false
}

/// Says which columns are overwritten, given the names in upper case.
pub fn columns_with_uppers(
    cols: &Vec<String>,
    names: &Vec<String>,
    fields: &Option<Vec<String>>,
    v: ValueInfo,
    nrows: usize,
) -> (r: Result<Vec<usize>, AssignError>)
    ensures
        ({
            let want = columns_written(
                texts(cols@),
                texts(names@),
                opt_texts(*fields),
                v,
                nrows,
            );
            match r {
                Ok(p) => want == Ok::<Seq<int>, AssignError>(p@.map_values(|i: usize| i as int))
                    && p@.len() == names@.len() && forall|i: int|
                    0 <= i < p@.len() ==> p@[i] < cols@.len(),
                Err(e) => want == Err::<Seq<int>, AssignError>(e),
            }
        }),
{
    let n: usize = names.len();
    if n == 0 {
        return Err(AssignError::EmptyNames);
    }
    if !v.is_array {
        return Err(AssignError::NotArray);
    }
    match check_length(v, nrows) {
        Err(e) => {
            return Err(e);
        },
        Ok(_) => {},
    }
    let f: &Vec<String> = match fields {
        None => {
            return Err(AssignError::NotStructured);
        },
        Some(f) => f,
    };
    let ghost c = texts(cols@);
    let ghost w = texts(names@);
    let ghost g = texts(f@);
    let mut out: Vec<usize> = Vec::new();
    let mut i: usize = 0;
    assert(out@.map_values(|i: usize| i as int) =~= Seq::empty());
    while i < n
        invariant
            i <= n == names@.len() == w.len(),
            n > 0,
            v.is_array,
            length_for(v, nrows) is Ok,
            c == texts(cols@),
            w == texts(names@),
            g == texts(f@),
            opt_texts(*fields) == Some(g),
            out@.len() == i,
            places_named(c, w, g, i as nat) == Ok::<Seq<int>, AssignError>(
                out@.map_values(|i: usize| i as int),
            ),
            forall|k: int| 0 <= k < out@.len() ==> out@[k] < cols@.len(),
        decreases n - i,
    {
        let name: &str = names[i].as_str();
        if stands_before(names, name, i) {
            proof {
                lemma_places_named(c, w, g, (i + 1) as nat, n as nat);
            }
            return Err(AssignError::DuplicateName { at: i });
        }
        match position_of(cols, name) {
            None => {
                proof {
                    lemma_places_named(c, w, g, (i + 1) as nat, n as nat);
                }
                return Err(AssignError::UnknownName { at: i });
            },
            Some(p) => {
                if position_of(f, name).is_none() {
                    proof {
                        lemma_places_named(c, w, g, (i + 1) as nat, n as nat);
                    }
                    return Err(AssignError::MissingField { at: i });
                }
                let ghost was = out@.map_values(|i: usize| i as int);
                out.push(p);
                assert(out@.map_values(|i: usize| i as int) =~= was.push(p as int));
            },
        }
        i = i + 1;
    }
    Ok(out)
}

/// The texts of an optional list.
pub open spec fn opt_texts(list: Option<Vec<String>>) -> Option<Seq<Seq<char>>> {
    match list {
        Some(v) => Some(texts(v@)),
        None => None,
    }
}

/// A list of names in upper case.
pub open spec fn upper_names(names: Seq<Seq<char>>) -> Seq<Seq<char>> {
    Seq::new(names.len(), |i: int| uppercase(names[i]))
}

fn names_in_upper(names: &Vec<String>) -> (r: Vec<String>)
    ensures
        texts(r@) == upper_names(texts(names@)),
{
    let n: usize = names.len();
    let ghost want = upper_names(texts(names@));
    let mut r: Vec<String> = Vec::new();
    let mut i: usize = 0;
    assert(texts(r@) =~= want.take(0));
    while i < n
        invariant
            i <= n == names@.len() == want.len(),
            want == upper_names(texts(names@)),
            texts(r@) == want.take(i as int),
        decreases n - i,
    {
        let ghost before = texts(r@);
        let s: String = to_uppercase(names[i].as_str());
        let ghost t = s@;
        r.push(s);
        assert(texts(r@) =~= before.push(t));
        i = i + 1;
        assert(texts(r@) =~= want.take(i as int));
    }
    assert(want.take(n as int) =~= want);
    r
}

fn opt_names_in_upper(names: &Option<Vec<String>>) -> (r: Option<Vec<String>>)
    ensures
        opt_texts(r) == (match *names {
            Some(v) => Some(upper_names(texts(v@))),
            None => None,
        }),
{
    match names {
        Some(v) => Some(names_in_upper(v)),
        None => None,
    }
}

/// Says which columns are overwritten. `fields` are the names of what is given.
pub fn plan_set_columns(
    columns: &[Column],
    names: &Vec<String>,
    fields: &Option<Vec<String>>,
    v: ValueInfo,
    nrows: usize,
) -> (r: Result<Vec<usize>, AssignError>)
    ensures
        ({
            let want = columns_written(
                name_uppers(views(columns@)),
                upper_names(texts(names@)),
                match *fields {
                    Some(f) => Some(upper_names(texts(f@))),
                    None => None,
                },
                v,
                nrows,
            );
            match r {
                Ok(p) => want == Ok::<Seq<int>, AssignError>(p@.map_values(|i: usize| i as int))
                    && p@.len() == names@.len() && forall|i: int|
                    0 <= i < p@.len() ==> p@[i] < columns@.len(),
                Err(e) => want == Err::<Seq<int>, AssignError>(e),
            }
        }),
{
    let c: Vec<String> = column_uppers(columns);
    let w: Vec<String> = names_in_upper(names);
    let f: Option<Vec<String>> = opt_names_in_upper(fields);
    assert(texts(c@).len() == columns@.len());
    assert(texts(w@).len() == names@.len());
    columns_with_uppers(&c, &w, &f, v, nrows)
}

/// The first name for which nothing is given, in upper case.
pub open spec fn first_ungiven(names: Seq<Seq<char>>, fields: Seq<Seq<char>>, k: nat) -> Option<
    usize,
>
    decreases k,
{
    if k == 0 {
        None
    } else {
        match first_ungiven(names, fields, (k - 1) as nat) {
            Some(i) => Some(i),
            None => if first_text(fields, names[k - 1]) is None {
                Some((k - 1) as usize)
            } else {
                None
            },
        }
    }
}

proof fn lemma_first_ungiven(names: Seq<Seq<char>>, fields: Seq<Seq<char>>, m: nat, k: nat)
    requires
        m <= k,
        first_ungiven(names, fields, m) is Some,
    ensures
        first_ungiven(names, fields, k) == first_ungiven(names, fields, m),
    decreases k,
{
    if m < k {
        lemma_first_ungiven(names, fields, m, (k - 1) as nat);
    }
}

/// Whether what is given for some columns in some rows can be written, and
/// whether there is anything to write. `single` says that the rows are one
/// number, for which a record is given.
pub open spec fn subset_written(
    names: Seq<Seq<char>>,
    fields: Option<Seq<Seq<char>>>,
    count: usize,
    single: bool,
    rec: RecordInfo,
    v: ValueInfo,
) -> Result<bool, AssignError> {
    let given = if single {
        match one_record(rec) {
            Err(e) => Err(e),
            Ok(_) => Ok(true),
        }
    } else if !v.is_array {
        Err(AssignError::NotArray)
    } else {
        length_for(v, count)
    };
    if names.len() == 0 {
        Err(AssignError::EmptyNames)
    } else if count == 0 {
        Ok(false)
    } else {
        match given {
            Err(e) => Err(e),
            Ok(_) => match fields {
                None => Err(AssignError::NotStructured),
                Some(f) => match first_ungiven(names, f, names.len()) {
                    Some(at) => Err(AssignError::MissingField { at }),
                    None => Ok(true),
                },
            },
        }
    }
}

/// Checks what is given for some columns in some rows, with the names in upper
/// case.
pub fn subset_with_uppers(
    names: &Vec<String>,
    fields: &Option<Vec<String>>,
    count: usize,
    single: bool,
    rec: &RecordInfo,
    v: ValueInfo,
) -> (r: Result<bool, AssignError>)
    ensures
        r == subset_written(texts(names@), opt_texts(*fields), count, single, *rec, v),
{
    let n: usize = names.len();
    if n == 0 {
        return Err(AssignError::EmptyNames);
    }
    if count == 0 {
        return Ok(false);
    }
    if single {
        match coerce_to_len1_record(rec) {
            Err(e) => {
                return Err(e);
            },
            Ok(_) => {},
        }
    } else {
        if !v.is_array {
            return Err(AssignError::NotArray);
        }
        match check_length(v, count) {
            Err(e) => {
                return Err(e);
            },
            Ok(_) => {},
        }
    }
    let f: &Vec<String> = match fields {
        None => {
            return Err(AssignError::NotStructured);
        },
        Some(f) => f,
    };
    let ghost w = texts(names@);
    let ghost g = texts(f@);
    let mut i: usize = 0;
    while i < n
        invariant
            i <= n == names@.len() == w.len(),
            w == texts(names@),
            g == texts(f@),
            opt_texts(*fields) == Some(g),
            first_ungiven(w, g, i as nat) is None,
            subset_written(w, Some(g), count, single, *rec, v) == (match first_ungiven(
                w,
                g,
                w.len(),
            ) {
                Some(at) => Err::<bool, AssignError>(AssignError::MissingField { at }),
                None => Ok(true),
            }),
        decreases n - i,
    {
        if position_of(f, names[i].as_str()).is_none() {
            proof {
                lemma_first_ungiven(w, g, (i + 1) as nat, n as nat);
            }
            return Err(AssignError::MissingField { at: i });
        }
        i = i + 1;
    }
    Ok(true)
}

/// Checks what is given for some columns in some rows.
pub fn check_column_subset(
    names: &Vec<String>,
    fields: &Option<Vec<String>>,
    count: usize,
    single: bool,
    rec: &RecordInfo,
    v: ValueInfo,
) -> (r: Result<bool, AssignError>)
    ensures
        r == subset_written(
            upper_names(texts(names@)),
            match *fields {
                Some(f) => Some(upper_names(texts(f@))),
                None => None,
            },
            count,
            single,
            *rec,
            v,
        ),
{
    let w: Vec<String> = names_in_upper(names);
    let f: Option<Vec<String>> = opt_names_in_upper(fields);
    subset_with_uppers(&w, &f, count, single, rec, v)
}

/// Whether what is given for one column in some rows can be written, and whether
/// there is anything to write.
pub open spec fn one_column_written(count: usize, single: bool, v: ValueInfo) -> Result<
    bool,
    AssignError,
> {
    if count == 0 {
        Ok(false)
    } else if single {
        Ok(true)
    } else {
        length_for(v, count)
    }
}

/// Checks what is given for one column in some rows.
pub fn check_one_column(count: usize, single: bool, v: ValueInfo) -> (r: Result<bool, AssignError>)
    ensures
        r == one_column_written(count, single, v),
{
    if count == 0 {
        Ok(false)
    } else if single {
        Ok(true)
    } else {
        check_length(v, count)
    }
}

// Cells --------------------------------------------------------------------

/// The row and the column of a cell, or why there is none. `column` is the
/// place of the column.
pub open spec fn cell_place(i: i64, nrows: usize, column: Option<int>) -> Result<
    (int, int),
    AssignError,
> {
    match row_at(i, nrows as int) {
        None => Err(AssignError::Row { row: RowError::OutOfRange { index: i, nrows } }),
        Some(r) => match column {
            None => Err(AssignError::UnknownColumn),
            Some(c) => Ok((r, c)),
        },
    }
}

/// Finds the cell in a row and a column.
pub fn find_cell(columns: &[Column], i: i64, nrows: usize, name: &str) -> (r: Result<
    (usize, usize),
    AssignError,
>)
    requires
        nrows <= i64::MAX,
    ensures
        ({
            let want = cell_place(i, nrows, column_named(views(columns@), name@));
            match r {
                Ok((k, c)) => want == Ok::<(int, int), AssignError>((k as int, c as int)) && k
                    < nrows && c < columns@.len(),
                Err(e) => want == Err::<(int, int), AssignError>(e),
            }
        }),
{
    match normalize_row_index(i, nrows) {
        Err(row) => Err(AssignError::Row { row }),
        Ok(k) => match find_column_by_name(columns, name) {
            None => Err(AssignError::UnknownColumn),
            Some(c) => Ok((k, c)),
        },
    }
}

/// The type that a value for a cell is turned into: that of the column, which
/// for unsigned integers is theirs.
pub open spec fn cell_type(c: ColumnView) -> Option<NumpyType> {
    field_type(c, scaling(c.letter, c.tscal, c.tzero) == Some(ScalingKind::UnsignedTrick))
}

/// The type and the shape that a value for a cell is turned into. The shape has
/// an axis of one row before those of the cell.
pub fn cell_input_type(col: &Column) -> (r: Option<(NumpyType, Vec<usize>)>)
    requires
        column_ok(col@),
    ensures
        match r {
            Some((t, shape)) => cell_type(col@) == Some(t) && shape@ == seq![1usize] + cell_shape(
                col@,
            ),
            None => cell_type(col@) is None,
        },
{
    let scale: bool = match scaling_kind(col) {
        Some(k) => match k {
            ScalingKind::UnsignedTrick => true,
            _ => false,
        },
        None => false,
    };
    match field_dtype_and_shape(col, scale) {
        None => None,
        Some((t, shape)) => {
            let mut axes: Vec<usize> = vec![1];
            let mut rest: Vec<usize> = shape;
            let ghost cells = rest@;
            axes.append(&mut rest);
            assert(axes@ =~= seq![1usize] + cells);
            Some((t, axes))
        },
    }
}

/// The bytes of a cell for a value, or why there are none.
pub open spec fn cell_written(c: ColumnView, a: ArrayInfo, buf: Seq<u8>) -> Result<
    Seq<u8>,
    AssignError,
> {
    match array_input(a, c, 1) {
        Err(input) => Err(AssignError::Input { input }),
        Ok((t, size)) => match encoded(t, buf) {
            Err(cell) => Err(AssignError::Cell { cell }),
            Ok(b) => Ok(b),
        },
    }
}

/// Turns a value, which is an array of one row, into the bytes of a cell.
pub fn encode_single_cell(col: &Column, a: &ArrayInfo, buf: &Vec<u8>) -> (r: Result<
    Vec<u8>,
    AssignError,
>)
    requires
        column_ok(col@),
        col.var_kind is None,
        a.nbytes == buf@.len(),
    ensures
        match r {
            Ok(b) => cell_written(col@, *a, buf@) == Ok::<Seq<u8>, AssignError>(b@) && b@.len()
                == col.byte_width,
            Err(e) => cell_written(col@, *a, buf@) == Err::<Seq<u8>, AssignError>(e),
        },
{
    match acquire_per_column_array(a, col, 1) {
        Err(input) => Err(AssignError::Input { input }),
        Ok((t, size)) => {
            proof {
                assert(1 * size == size);
                assert(seq![a.nbytes][0] == a.nbytes);
            }
            match apply_transform_cell(t, buf) {
                Err(cell) => Err(AssignError::Cell { cell }),
                Ok(b) => Ok(b),
            }
        },
    }
}

/// Turns the value of row `r` of a column into the bytes of its cell, where
/// values have `size` bytes.
pub fn encode_column_cell(t: WriteTransform, buf: &Vec<u8>, size: usize, r: usize) -> (v: Result<
    Vec<u8>,
    CellError,
>)
    requires
        transform_ok(t),
        source_size(t) <= size,
        (r + 1) * size <= buf@.len(),
    ensures
        match v {
            Ok(c) => given_cell(t, buf@, size as int, r as int) == Ok::<Seq<u8>, CellError>(c@)
                && c@.len() == stored_size(t),
            Err(e) => given_cell(t, buf@, size as int, r as int) == Err::<Seq<u8>, CellError>(e),
        },
{
    proof {
        crate::bytes::lemma_unit_below(r as int, r + 1, size as int);
        crate::bytes::lemma_next_unit(r as int, size as int);
    }
    let total: usize = buf.len();
    let src: Vec<u8> = copy_of(buf, r * size, size);
    apply_transform_cell(t, &src)
}

/// A cell in the heap that is overwritten: its bytes go behind the heap, and
/// its descriptor into its row.
#[derive(Debug)]
pub struct HeapCellWrite {
    pub bytes: Vec<u8>,
    pub descriptor: Vec<u8>,
    /// The bytes of the heap with the cell.
    pub heap_end: u64,
}

/// How many elements a cell for the heap has, or why there is none: what is
/// given must be one, and behind a heap of `pcount` bytes there must be room.
pub open spec fn heap_cell_count(c: VarInput, letter: Letter, pcount: u64) -> Result<
    usize,
    AssignError,
> {
    match var_count(c, letter) {
        Err(heap) => Err(AssignError::Heap { heap }),
        Ok(n) => if pcount + cell_bytes(letter, n as nat) > u64::MAX {
            Err(AssignError::TooLarge)
        } else {
            Ok(n)
        },
    }
}

/// Plans to overwrite a cell in the heap: the new one goes behind the `pcount`
/// bytes that the heap has.
pub fn plan_set_heap_cell(col: &Column, kind: Descriptor, c: &VarInput, pcount: u64) -> (r: Result<
    HeapCellWrite,
    AssignError,
>)
    requires
        var_input_ok(*c),
    ensures
        match heap_cell_count(*c, col.letter, pcount) {
            Err(e) => r == Err::<HeapCellWrite, AssignError>(e),
            Ok(n) => r matches Ok(w) && w.bytes@ == var_bytes(*c, col.letter) && w.descriptor@
                == descriptor_for(kind, n as nat, pcount as nat) && w.heap_end == pcount
                + w.bytes@.len() && w.bytes@.len() == cell_bytes(col.letter, n as nat),
        },
{
    match validate_vla_cell(c, col.letter) {
        Err(heap) => Err(AssignError::Heap { heap }),
        Ok(n) => {
            let bytes: Vec<u8> = serialize_vla_cell(c, col.letter);
            match pcount.checked_add(bytes.len() as u64) {
                None => Err(AssignError::TooLarge),
                Some(heap_end) => {
                    let descriptor: Vec<u8> = write_descriptor(kind, n as u64, pcount);
                    Ok(HeapCellWrite { bytes, descriptor, heap_end })
                },
            }
        },
    }
}

/// A column with cells in the heap that is overwritten: the bytes of the cells
/// go behind the heap, and their descriptors into the rows.
#[derive(Debug)]
pub struct HeapColumnWrite {
    pub bytes: Vec<u8>,
    /// The descriptors, one behind the other.
    pub descriptors: Vec<u8>,
    /// The bytes of the heap with the cells.
    pub heap_end: usize,
}

/// Why what is given for a column with cells in the heap is not written.
pub open spec fn heap_column_error(
    c: ColumnView,
    a: ArrayInfo,
    cells: Seq<Vec<VarInput>>,
    nrows: usize,
    pcount: u64,
) -> Option<AssignError> {
    if !a.is_array {
        Some(AssignError::NotArray)
    } else if a.shape@.len() != 1 || a.shape@[0] != nrows {
        Some(AssignError::Axis { nrows })
    } else if a.kind != 'O' {
        Some(AssignError::NotObjects { kind: a.kind })
    } else if pcount > usize::MAX {
        Some(AssignError::TooLarge)
    } else {
        match rows_error(seq![c], cells, pcount as int, nrows as nat) {
            Some(write) => Some(AssignError::Write { write }),
            None => None,
        }
    }
}

/// Where the cells of a column go, behind a heap of `pcount` bytes.
pub open spec fn is_heap_column(
    w: HeapColumnWrite,
    c: ColumnView,
    kind: Descriptor,
    cells: Seq<Vec<VarInput>>,
    nrows: usize,
    pcount: u64,
) -> bool {
    &&& w.bytes@ == rows_heap(seq![c], cells, nrows as int)
    &&& w.heap_end == pcount + w.bytes@.len()
    &&& exists|plans: Seq<VlaCellPlan>|
        #![trigger plans_hold(seq![c], cells, pcount as int, plans, 0, nrows as int)]
        plans_hold(seq![c], cells, pcount as int, plans, 0, nrows as int) && w.descriptors@
            == concat(
            Seq::new(
                nrows as nat,
                |k: int|
                    descriptor_for(kind, plans[k].nelements as nat, plans[k].offset as nat),
            ),
        )
}

/// Plans to overwrite a column with cells in the heap. `cells` has one list:
/// the cells.
pub fn plan_set_heap_column(
    col: Column,
    kind: Descriptor,
    a: &ArrayInfo,
    cells: &Vec<Vec<VarInput>>,
    nrows: usize,
    pcount: u64,
) -> (r: Result<HeapColumnWrite, AssignError>)
    requires
        col.var_kind == Some(kind),
        cells@.len() == 1,
        cells@[0]@.len() == first_axis(*a),
        forall|k: int| 0 <= k < cells@[0]@.len() ==> var_input_ok(#[trigger] cells@[0]@[k]),
    ensures
        match heap_column_error(col@, *a, cells@, nrows, pcount) {
            Some(e) => r == Err::<HeapColumnWrite, AssignError>(e),
            None => r matches Ok(w) && is_heap_column(w, col@, kind, cells@, nrows, pcount),
        },
{
    if !a.is_array {
        return Err(AssignError::NotArray);
    }
    if a.shape.len() != 1 || a.shape[0] != nrows {
        return Err(AssignError::Axis { nrows });
    }
    if a.kind != 'O' {
        return Err(AssignError::NotObjects { kind: a.kind });
    }
    if pcount > usize::MAX as u64 {
        return Err(AssignError::TooLarge);
    }
    let ghost cv = seq![col@];
    let mut cols: Vec<Column> = Vec::new();
    cols.push(col);
    assert(views(cols@) =~= cv);
    match plan_vla_heap_layout(&cols, cells, nrows, pcount as usize) {
        Err(write) => Err(AssignError::Write { write }),
        Ok((plans, heap_end)) => {
            assert(plans_hold(cv, cells@, pcount as int, plans@[0]@, 0, nrows as int));
            proof {
                assert forall|i: int, q: int|
                    0 <= i < cols@.len() && 0 <= q < nrows && cols@[i].var_kind is Some implies (
                #[trigger] crate::vla::count_at(views(cols@), cells@, i, q)) is Ok by {
                    assert(crate::vla::count_at(cv, cells@, 0, q) == Ok::<usize, VarError>(
                        plans@[0]@[q].nelements,
                    ));
                }
            }
            let bytes: Vec<u8> = build_vla_heap_buf(&cols, cells, nrows);
            let descriptors: Vec<u8> = descriptor_cells(kind, &plans[0], 0, nrows);
            let ghost p = plans@[0]@;
            let w: HeapColumnWrite = HeapColumnWrite { bytes, descriptors, heap_end };
            proof {
                let x = Seq::new(
                    nrows as nat,
                    |k: int|
                        descriptor_for(
                            kind,
                            p[0 + k].nelements as nat,
                            p[0 + k].offset as nat,
                        ),
                );
                let y = Seq::new(
                    nrows as nat,
                    |k: int| descriptor_for(kind, p[k].nelements as nat, p[k].offset as nat),
                );
                assert(x =~= y);
            }
            Ok(w)
        },
    }
}

// Laws ---------------------------------------------------------------------

/// Overwriting a cell changes that cell alone: every other cell of the table
/// stays.
pub proof fn law_set_cell(
    cols: Seq<ColumnView>,
    main: Seq<u8>,
    rw: int,
    n: int,
    r: int,
    i: int,
    cell: Seq<u8>,
    q: int,
    j: int,
)
    requires
        columns_fill(cols, rw),
        main.len() == n * rw,
        0 <= r < n,
        0 <= q < n,
        0 <= i < cols.len(),
        0 <= j < cols.len(),
        cell.len() == cols[i].byte_width,
    ensures
        col_field(cols, splice(main, r * rw + cols[i].byte_offset, cell), rw, q, j) == if q == r
            && j == i {
            cell
        } else {
            col_field(cols, main, rw, q, j)
        },
{
    lemma_columns_fill(cols, rw);
    if j < i {
        assert(cols[j].byte_offset + cols[j].byte_width <= cols[i].byte_offset);
    } else if j > i {
        assert(cols[i].byte_offset + cols[i].byte_width <= cols[j].byte_offset);
    }
    lemma_field_splice(
        main,
        rw,
        n,
        r,
        cols[i].byte_offset as int,
        cell,
        q,
        cols[j].byte_offset as int,
        cols[j].byte_width as int,
    );
    if q == r && j != i && cols[i].byte_offset == cols[j].byte_offset && cols[i].byte_width
        == cols[j].byte_width {
        // Two cells at one place are empty.
        assert(cell =~= col_field(cols, main, rw, q, j)) by {
            crate::bytes::lemma_unit_below(r, n, rw);
        }
    }
}

/// Rows of `rw` bytes after the cells of the first `k` rows at `off` have been
/// written.
pub open spec fn column_set(
    main: Seq<u8>,
    rw: int,
    off: int,
    cells: Seq<Seq<u8>>,
    k: nat,
) -> Seq<u8>
    decreases k,
{
    if k == 0 {
        main
    } else {
        splice(
            column_set(main, rw, off, cells, (k - 1) as nat),
            (k - 1) * rw + off,
            cells[k - 1],
        )
    }
}

/// Overwriting a column row by row gives each row its cell, and leaves every
/// cell of the other columns, and of the rows that are still to come, alone.
pub proof fn law_set_column(
    cols: Seq<ColumnView>,
    main: Seq<u8>,
    rw: int,
    n: int,
    i: int,
    cells: Seq<Seq<u8>>,
    k: nat,
    q: int,
    j: int,
)
    requires
        columns_fill(cols, rw),
        main.len() == n * rw,
        k <= n,
        0 <= q < n,
        0 <= i < cols.len(),
        0 <= j < cols.len(),
        cells.len() == n,
        forall|r: int| 0 <= r < n ==> (#[trigger] cells[r]).len() == cols[i].byte_width,
    ensures
        column_set(main, rw, cols[i].byte_offset as int, cells, k).len() == main.len(),
        col_field(
            cols,
            column_set(main, rw, cols[i].byte_offset as int, cells, k),
            rw,
            q,
            j,
        ) == if j == i && q < k {
            cells[q]
        } else {
            col_field(cols, main, rw, q, j)
        },
    decreases k,
{
    if k > 0 {
        law_set_column(cols, main, rw, n, i, cells, (k - 1) as nat, q, j);
        let before = column_set(main, rw, cols[i].byte_offset as int, cells, (k - 1) as nat);
        assert(cells[k - 1].len() == cols[i].byte_width);
        law_set_cell(cols, before, rw, n, k - 1, i, cells[k - 1], q, j);
    }
}

/// A cell in the heap that is overwritten is then the one that was given, on a
/// little-endian host and without scaling, as long as the numbers of its
/// descriptor hold its count and its place. `heap` is what the heap held.
pub proof fn law_set_heap_cell(
    letter: Letter,
    kind: Descriptor,
    c: VarInput,
    heap: Seq<u8>,
    base: u64,
)
    requires
        var_input_ok(c),
        heap_cell_count(c, letter, heap.len() as u64) is Ok,
        exact_cell(c, letter),
        given_bytes(c).len() <= usize::MAX,
        heap.len() + var_bytes(c, letter).len() <= usize::MAX,
        base + heap.len() <= u64::MAX,
        2 * var_count(c, letter)->Ok_0 < pow256(half_size(kind)),
        2 * heap.len() < pow256(half_size(kind)),
    ensures
        ({
            let n = var_count(c, letter)->Ok_0;
            let after = heap + var_bytes(c, letter);
            let (count, off) = descriptor_value(
                kind,
                descriptor_for(kind, n as nat, heap.len()),
            );
            &&& 0 <= count <= i64::MAX
            &&& 0 <= off <= i64::MAX
            &&& heap_span(letter, count as i64, off as i64, base) matches Ok((at, len))
                && at - base + len <= after.len() && var_value(
                letter,
                after.subrange(at - base, at - base + len),
                count as nat,
                c is Bytes,
                ScalingKind::Unscaled,
                ByteOrder::Little,
            ) == Ok::<VarView, CellError>(given_value(c, letter))
        }),
{
    let n = var_count(c, letter)->Ok_0;
    let b = var_bytes(c, letter);
    let after = heap + b;
    crate::bytes::lemma_pow256();
    law_descriptor_round_trip(kind, n as nat, heap.len());
    crate::vla::lemma_var_bytes(c, letter);
    law_heap_cell_reads_back(c, letter);
    assert(after.subrange(heap.len() as int, (heap.len() + b.len()) as int) =~= b);
}

} // verus!
