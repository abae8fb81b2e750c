//! What errors tell: which cell, name or type is the one that is refused.

use vstd::prelude::*;

use crate::bytes::ByteOrder;
use crate::codes::{law_signs, stands_for};
use crate::columns::{ColumnView, Descriptor, Letter, views};
use crate::create::{
    BitColumns, Field, InnerTypes, ScalarClass, WriteColumnView, column_for, scalar_class,
};
use crate::encode::transform_for;
use crate::error::{
    CellError, ColumnError, DtypeError, EditError, HeaderError, ReadError, RowError,
    TransformError, VarError, WriteError,
};
use crate::fields::{column_with_key, columns_named, repeats, request_key, requested_columns};
use crate::header::{lemma_before_letter, lemma_trimmed};
use crate::heapwrite::{MainColumn, main_cell, main_error, main_row_error};
use crate::input::{PreparedInput, names_error};
use crate::keywords::{KeywordsView, Tform, column_from, tform_pieces};
use crate::read::{
    FieldPlace, ReadPlan, RowState, cell_of, first_var_null, plan_kinds, plan_value, read_plan_of,
    row_state, rows_state,
};
use crate::repack::{live_cell, live_error, live_row_error};
use crate::rows::RowSelector;
use crate::runs::read_order;
use crate::selected::{law_first_text, law_parsed};
use crate::strips::{cell_for, column_error, strip_error};
use crate::text::{
    all_digits, digits_value, first_text, is_digit, is_letter, is_white, texts, trimmed,
};
use crate::types::{is_other_sign, is_plain, natural};
use crate::values::{integers_of, lemma_ascii, string_size};
use crate::vla::{VarInput, VlaCellPlan, row_error, rows_error, var_count};




verus! {

// Cells --------------------------------------------------------------------

proof fn lemma_column_error(p: PreparedInput, bufs: Seq<Seq<u8>>, i: int, from: int, n: nat)
    ensures
        match column_error(p, bufs, i, from, n) {
            Some((r, e)) => 0 <= r < n && cell_for(p, bufs, i, from + r) == Err::<
                Seq<u8>,
                CellError,
            >(e) && forall|q: int| 0 <= q < r ==> cell_for(p, bufs, i, #[trigger] (from + q)) is Ok,
            None => forall|q: int| 0 <= q < n ==> cell_for(p, bufs, i, #[trigger] (from + q)) is Ok,
        },
    decreases n,
{
    if n > 0 {
        lemma_column_error(p, bufs, i, from, (n - 1) as nat);
    }
}

/// Whether the cells of column `i` in `n` rows can all be written.
pub open spec fn column_writes(
    p: PreparedInput,
    bufs: Seq<Seq<u8>>,
    i: int,
    from: int,
    n: int,
) -> bool {
    forall|q: int| 0 <= q < n ==> cell_for(p, bufs, i, #[trigger] (from + q)) is Ok
}

/// A value that cannot be written is named by its column and its row: it is the
/// first of its column, and the columns before it can be written.
pub proof fn law_unwritable_cell(
    p: PreparedInput,
    bufs: Seq<Seq<u8>>,
    k: nat,
    from: int,
    n: nat,
)
    requires
        k <= usize::MAX,
        n <= usize::MAX,
    ensures
        match strip_error(p, bufs, k, from, n) {
            Some(WriteError::Cell { column, row, cell }) => column < k && row < n && cell_for(
                p,
                bufs,
                column as int,
                from + row,
            ) == Err::<Seq<u8>, CellError>(cell) && column_writes(
                p,
                bufs,
                column as int,
                from,
                row as int,
            ) && forall|i: int|
                0 <= i < column ==> #[trigger] column_writes(p, bufs, i, from, n as int),
            Some(_) => false,
            None => forall|i: int|
                0 <= i < k ==> #[trigger] column_writes(p, bufs, i, from, n as int),
        },
    decreases k,
{
    if k > 0 {
        law_unwritable_cell(p, bufs, (k - 1) as nat, from, n);
        lemma_column_error(p, bufs, k - 1, from, n);
    }
}

proof fn lemma_main_row_error(
    src: Seq<MainColumn>,
    cols: Seq<ColumnView>,
    plans: Seq<Vec<VlaCellPlan>>,
    bufs: Seq<Seq<u8>>,
    r: int,
    k: nat,
)
    requires
        k <= usize::MAX,
        0 <= r <= usize::MAX,
    ensures
        match main_row_error(src, cols, plans, bufs, r, k) {
            Some(WriteError::Cell { column, row, cell }) => column < k && row == r && main_cell(
                src,
                cols,
                plans,
                bufs,
                column as int,
                r,
            ) == Err::<Seq<u8>, CellError>(cell),
            Some(_) => false,
            None => forall|i: int|
                0 <= i < k ==> (#[trigger] main_cell(src, cols, plans, bufs, i, r)) is Ok,
        },
    decreases k,
{
    if k > 0 {
        lemma_main_row_error(src, cols, plans, bufs, r, (k - 1) as nat);
    }
}

/// In a table with cells in the heap, a value that cannot be written is named by
/// its column and its row.
pub proof fn law_unwritable_main_cell(
    src: Seq<MainColumn>,
    cols: Seq<ColumnView>,
    plans: Seq<Vec<VlaCellPlan>>,
    bufs: Seq<Seq<u8>>,
    from: int,
    n: nat,
)
    requires
        cols.len() <= usize::MAX,
        0 <= from,
        from + n <= usize::MAX,
    ensures
        match main_error(src, cols, plans, bufs, from, n) {
            Some(WriteError::Cell { column, row, cell }) => column < cols.len() && from <= row
                < from + n && main_cell(src, cols, plans, bufs, column as int, row as int) == Err::<
                Seq<u8>,
                CellError,
            >(cell),
            Some(_) => false,
            None => forall|i: int, r: int|
                0 <= i < cols.len() && from <= r < from + n ==> (#[trigger] main_cell(
                    src,
                    cols,
                    plans,
                    bufs,
                    i,
                    r,
                )) is Ok,
        },
    decreases n,
{
    if n > 0 {
        law_unwritable_main_cell(src, cols, plans, bufs, from, (n - 1) as nat);
        lemma_main_row_error(src, cols, plans, bufs, from + n - 1, cols.len());
    }
}

proof fn lemma_live_row_error(
    cols: Seq<ColumnView>,
    main: Seq<u8>,
    rw: int,
    heap: Seq<u8>,
    r: int,
    k: nat,
)
    requires
        k <= usize::MAX,
        0 <= r <= usize::MAX,
    ensures
        match live_row_error(cols, main, rw, heap, r, k) {
            Some(EditError::Cell { column, row, cell }) => column < k && row == r && live_cell(
                cols,
                main,
                rw,
                heap,
                r,
                column as int,
            ) == Err::<Seq<u8>, CellError>(cell),
            Some(_) => false,
            None => forall|i: int|
                0 <= i < k ==> (#[trigger] live_cell(cols, main, rw, heap, r, i)) is Ok,
        },
    decreases k,
{
    if k > 0 {
        lemma_live_row_error(cols, main, rw, heap, r, (k - 1) as nat);
    }
}

/// A descriptor that points to no cell is named by its column and its row, and
/// where none is named all point to one.
pub proof fn law_bad_descriptor(
    cols: Seq<ColumnView>,
    main: Seq<u8>,
    rw: int,
    heap: Seq<u8>,
    n: nat,
)
    requires
        cols.len() <= usize::MAX,
        n <= usize::MAX,
    ensures
        match live_error(cols, main, rw, heap, n) {
            Some(EditError::Cell { column, row, cell }) => column < cols.len() && row < n
                && cols[column as int].var_kind is Some && live_cell(
                cols,
                main,
                rw,
                heap,
                row as int,
                column as int,
            ) == Err::<Seq<u8>, CellError>(cell),
            Some(_) => false,
            None => forall|i: int, r: int|
                0 <= i < cols.len() && 0 <= r < n ==> (#[trigger] live_cell(
                    cols,
                    main,
                    rw,
                    heap,
                    r,
                    i,
                )) is Ok,
        },
    decreases n,
{
    if n > 0 {
        law_bad_descriptor(cols, main, rw, heap, (n - 1) as nat);
        lemma_live_row_error(cols, main, rw, heap, n - 1, cols.len());
    }
}

proof fn lemma_heap_row_error(
    cols: Seq<ColumnView>,
    cells: Seq<Vec<VarInput>>,
    start: int,
    r: int,
    k: nat,
)
    requires
        k <= usize::MAX,
        0 <= r <= usize::MAX,
    ensures
        match row_error(cols, cells, start, r, k) {
            Some(WriteError::HeapCell { column, row, heap }) => column < k && row == r
                && cols[column as int].var_kind is Some && var_count(
                cells[column as int]@[r],
                cols[column as int].letter,
            ) == Err::<usize, VarError>(heap),
            Some(e) => e == WriteError::HeapTooLarge,
            None => forall|i: int|
                0 <= i < k && (#[trigger] cols[i]).var_kind is Some ==> var_count(
                    cells[i]@[r],
                    cols[i].letter,
                ) is Ok,
        },
    decreases k,
{
    if k > 0 {
        lemma_heap_row_error(cols, cells, start, r, (k - 1) as nat);
    }
}

/// Whether the objects of row `r` are cells that their columns take.
pub open spec fn objects_taken(
    cols: Seq<ColumnView>,
    cells: Seq<Vec<VarInput>>,
    r: int,
) -> bool {
    forall|i: int|
        0 <= i < cols.len() && (#[trigger] cols[i]).var_kind is Some ==> var_count(
            cells[i]@[r],
            cols[i].letter,
        ) is Ok
}

/// An object that its column does not take is named by its column and its row,
/// and where none is named all are taken.
pub proof fn law_bad_heap_cell(
    cols: Seq<ColumnView>,
    cells: Seq<Vec<VarInput>>,
    start: int,
    n: nat,
)
    requires
        cols.len() <= usize::MAX,
        n <= usize::MAX,
    ensures
        match rows_error(cols, cells, start, n) {
            Some(WriteError::HeapCell { column, row, heap }) => column < cols.len() && row < n
                && cols[column as int].var_kind is Some && var_count(
                cells[column as int]@[row as int],
                cols[column as int].letter,
            ) == Err::<usize, VarError>(heap),
            Some(e) => e == WriteError::HeapTooLarge,
            None => forall|r: int| 0 <= r < n ==> #[trigger] objects_taken(cols, cells, r),
        },
    decreases n,
{
    if n > 0 {
        law_bad_heap_cell(cols, cells, start, (n - 1) as nat);
        lemma_heap_row_error(cols, cells, start, n - 1, cols.len());
    }
}

proof fn lemma_row_state_error(
    p: ReadPlan,
    places: Seq<FieldPlace>,
    base: int,
    output_row: usize,
    row: Seq<u8>,
    order: ByteOrder,
    st: RowState,
    k: nat,
)
    ensures
        match row_state(p, places, base, output_row, row, order, st, k) {
            Err((i, e)) => 0 <= i < k && views(p.columns@)[i].var_kind is None && plan_value(
                views(p.columns@)[i],
                p.kinds@[i],
                p.as_bytes,
                cell_of(views(p.columns@)[i], row),
                order,
            ) == Err::<Seq<u8>, CellError>(e),
            Ok(_) => true,
        },
    decreases k,
{
    if k > 0 {
        lemma_row_state_error(p, places, base, output_row, row, order, st, (k - 1) as nat);
    }
}

/// A cell that cannot be read is named by its column and by the row of the table
/// that it stands in.
pub proof fn law_unreadable_cell(
    p: ReadPlan,
    places: Seq<FieldPlace>,
    itemsize: int,
    rows: Seq<Seq<u8>>,
    pairs: Seq<(i64, usize)>,
    order: ByteOrder,
    st: RowState,
)
    requires
        p.columns@.len() <= usize::MAX,
        rows.len() <= pairs.len(),
        forall|t: int| 0 <= t < pairs.len() ==> 0 <= (#[trigger] pairs[t]).0 <= usize::MAX,
    ensures
        match rows_state(p, places, itemsize, rows, pairs, order, st) {
            Err(ReadError::Cell { column, row, error }) => column < p.columns@.len() && exists|
                t: int,
            |
                0 <= t < rows.len() && (#[trigger] pairs[t]).0 == row && plan_value(
                    views(p.columns@)[column as int],
                    p.kinds@[column as int],
                    p.as_bytes,
                    cell_of(views(p.columns@)[column as int], rows[t]),
                    order,
                ) == Err::<Seq<u8>, CellError>(error),
            Err(_) => false,
            Ok(_) => true,
        },
    decreases rows.len(),
{
    if rows.len() > 0 {
        let q = rows.drop_last();
        let last = rows.len() - 1;
        law_unreadable_cell(p, places, itemsize, q, pairs, order, st);
        match rows_state(p, places, itemsize, q, pairs, order, st) {
            Err(e) => {
                if let ReadError::Cell { column, row, error } = e {
                    let t = choose|t: int|
                        0 <= t < q.len() && (#[trigger] pairs[t]).0 == row && plan_value(
                            views(p.columns@)[column as int],
                            p.kinds@[column as int],
                            p.as_bytes,
                            cell_of(views(p.columns@)[column as int], q[t]),
                            order,
                        ) == Err::<Seq<u8>, CellError>(error);
                    assert(q[t] == rows[t]);
                    assert(pairs[t].0 == row);
                }
            },
            Ok(s) => {
                lemma_row_state_error(
                    p,
                    places,
                    pairs[last].1 * itemsize,
                    pairs[last].1,
                    rows.last(),
                    order,
                    s,
                    p.columns@.len(),
                );
                assert(rows[last] == rows.last());
                assert(0 <= pairs[last].0 <= usize::MAX);
            },
        }
    }
}

// Types --------------------------------------------------------------------

/// What is said of values that a column does not take is what it takes.
pub proof fn law_refused_values(c: ColumnView, kind: char, size: usize)
    ensures
        match transform_for(c, kind, size) {
            Ok(_) => true,
            Err(TransformError::NeedsStrings { chars }) => c.letter is A && chars == string_size(c),
            Err(TransformError::NeedsBits { bits }) => c.letter is X && bits == c.repeat,
            Err(TransformError::NeedsBool) => c.letter is L,
            Err(TransformError::NeedsUnsigned { size: w }) => is_other_sign(
                c.letter,
                c.tscal,
                c.tzero,
            ) && w > 1 && integers_of(c.letter, w as int),
            Err(TransformError::Scaled) => !is_plain(c.tscal, c.tzero) && (c.letter is B
                || !is_other_sign(c.letter, c.tscal, c.tzero)),
            Err(TransformError::NeedsKind { kind: k, size: w }) => is_plain(c.tscal, c.tzero)
                && natural(c.letter, k, w as int),
        },
{
}

/// What is said of an object that a column in the heap does not take is what is
/// wrong with it.
pub proof fn law_refused_objects(l: Letter, c: VarInput)
    ensures
        match var_count(c, l) {
            Ok(_) => true,
            Err(VarError::NotString) => l is A && !(c is Bytes) && !(c is Text),
            Err(VarError::NonAsciiByte { byte, position }) => l is A && c is Text && byte >= 128,
            Err(VarError::NotArray) => !(l is A) && !(c is Array),
            Err(VarError::NotOneAxis) => !(l is A) && (c matches VarInput::Array { shape, .. }
                && shape@.len() != 1),
            Err(VarError::NeedsKind { kind, size }) => natural(l, kind, size as int),
            Err(VarError::NotContiguous) => !(l is A) && (c matches VarInput::Array {
                contiguous,
                ..
            } && !contiguous),
        },
{
    if let VarInput::Text(s) = c {
        lemma_ascii(vstd::utf8::encode_utf8(s@));
    }
}

/// What is said of elements that have no column is why: signed bytes, floats of 16
/// bits and strings of nothing have a reason of their own, and bits are for truth
/// values.
pub proof fn law_refused_elements(kind: char, size: usize, bits: bool)
    ensures
        bits && (kind != 'b' || size != 1) ==> scalar_class(kind, size, bits) == Err::<
            ScalarClass,
            DtypeError,
        >(DtypeError::BitsNeedBool),
        !bits && kind == 'i' && size == 1 ==> scalar_class(kind, size, bits) == Err::<
            ScalarClass,
            DtypeError,
        >(DtypeError::Int8),
        !bits && kind == 'f' && size == 2 ==> scalar_class(kind, size, bits) == Err::<
            ScalarClass,
            DtypeError,
        >(DtypeError::Float16),
        !bits && (kind == 'S' || kind == 'U') && size == 0 ==> scalar_class(kind, size, bits)
            == Err::<ScalarClass, DtypeError>(DtypeError::ZeroLengthString),
{
}

/// What is said of a field of objects that becomes no column: its shape, or what
/// is missing of the type of its cells.
pub proof fn law_refused_field(
    f: Field,
    upper: Seq<char>,
    inner: Option<InnerTypes>,
    bits: Option<BitColumns>,
    descriptor: Descriptor,
)
    requires
        f.kind == 'O',
    ensures
        ({
            let r = column_for(f, upper, inner, bits, descriptor);
            if f.shape@.len() > 0 {
                r == Err::<WriteColumnView, DtypeError>(DtypeError::ObjectShape)
            } else if inner is None {
                r == Err::<WriteColumnView, DtypeError>(DtypeError::NoInnerTypes)
            } else if forall|i: int|
                0 <= i < inner->0.names@.len() ==> (#[trigger] inner->0.names@[i])@ != f.name@ {
                r == Err::<WriteColumnView, DtypeError>(DtypeError::MissingInnerType)
            } else {
                r matches Err(e) ==> e == DtypeError::InnerTypeNotText || e
                    == DtypeError::UnsupportedInner
            }
        }),
{
    if let Some(t) = inner {
        let names = texts(t.names@);
        law_first_text(names, f.name@);
        if forall|i: int| 0 <= i < t.names@.len() ==> (#[trigger] t.names@[i])@ != f.name@ {
            if first_text(names, f.name@) is Some {
                let i = first_text(names, f.name@)->0;
                assert(names[i] == t.names@[i]@);
            }
        } else {
            let i = choose|i: int|
                0 <= i < t.names@.len() && (#[trigger] t.names@[i])@ == f.name@;
            assert(names[i] == f.name@);
        }
    }
}

// Names --------------------------------------------------------------------

/// A name that is refused is named by its place: it is no column, or it stands
/// before already.
pub proof fn law_refused_name(names: Seq<Seq<char>>, cols: Seq<Seq<char>>)
    requires
        names.len() <= usize::MAX,
    ensures
        match names_error(names, cols) {
            None => true,
            Some(WriteError::ExtraName { at }) => at < names.len() && !cols.contains(
                names[at as int],
            ),
            Some(WriteError::DuplicateName { at }) => at < names.len() && exists|j: int|
                0 <= j < at && #[trigger] names[j] == names[at as int],
            Some(_) => false,
        },
    decreases names.len(),
{
    if names.len() > 0 {
        let p = names.drop_last();
        law_refused_name(p, cols);
        law_first_text(cols, names.last());
        law_first_text(p, names.last());
        assert(forall|j: int| 0 <= j < p.len() ==> p[j] == names[j]);
        match names_error(p, cols) {
            Some(WriteError::DuplicateName { at }) => {
                let j = choose|j: int| 0 <= j < at && #[trigger] p[j] == p[at as int];
                assert(names[j] == names[at as int]);
            },
            Some(_) => {},
            None => {
                if first_text(p, names.last()) is Some {
                    let j = first_text(p, names.last())->0;
                    assert(names[j] == names[names.len() - 1]);
                }
            },
        }
    }
}

/// A name of a request that is refused is named by its place: it finds no column,
/// or the same as one before it.
pub proof fn law_refused_request(cols: Seq<ColumnView>, names: Seq<Seq<char>>)
    requires
        names.len() <= usize::MAX,
    ensures
        match requested_columns(cols, names) {
            Ok(_) => true,
            Err(ColumnError::EmptyRequest) => names.len() == 0,
            Err(ColumnError::UnknownName { at }) => at < names.len() && column_with_key(
                cols,
                request_key(names[at as int]),
            ) is None,
            Err(ColumnError::DuplicateName { at }) => at < names.len() && exists|j: int|
                0 <= j < at && request_key(#[trigger] names[j]) == request_key(names[at as int]),
            Err(_) => false,
        },
{
    lemma_refused_request(cols, names);
}

proof fn lemma_refused_request(cols: Seq<ColumnView>, names: Seq<Seq<char>>)
    requires
        names.len() <= usize::MAX,
    ensures
        match columns_named(cols, names) {
            Ok(_) => true,
            Err(ColumnError::UnknownName { at }) => at < names.len() && column_with_key(
                cols,
                request_key(names[at as int]),
            ) is None,
            Err(ColumnError::DuplicateName { at }) => at < names.len() && exists|j: int|
                0 <= j < at && request_key(#[trigger] names[j]) == request_key(names[at as int]),
            Err(_) => false,
        },
    decreases names.len(),
{
    if names.len() > 0 {
        let p = names.drop_last();
        lemma_refused_request(cols, p);
        assert(forall|j: int| 0 <= j < p.len() ==> p[j] == names[j]);
        match columns_named(cols, p) {
            Err(ColumnError::DuplicateName { at }) => {
                let j = choose|j: int|
                    0 <= j < at && request_key(#[trigger] p[j]) == request_key(p[at as int]);
                assert(request_key(names[j]) == request_key(names[at as int]));
            },
            Err(_) => {},
            Ok(_) => {
                if repeats(names) {
                    let j = choose|j: int|
                        0 <= j < names.len() - 1 && request_key(#[trigger] names[j])
                            == request_key(names.last());
                    assert(request_key(names[j]) == request_key(names[names.len() - 1]));
                }
            },
        }
    }
}

/// Complex numbers that would be scaled, and cells in the heap whose nulls would
/// be masked, are named by the place of their column.
pub proof fn law_refused_columns(
    cols: Seq<ColumnView>,
    nrows: usize,
    sel: Option<RowSelector>,
    scale: bool,
    mask_null: bool,
)
    requires
        cols.len() <= usize::MAX,
    ensures
        match read_plan_of(cols, nrows, sel, scale, mask_null) {
            Ok(_) => true,
            Err(ReadError::Columns(ColumnError::VariableNull { at })) => mask_null && at
                < cols.len() && cols[at as int].tnull is Some && cols[at as int].var_kind is Some,
            Err(ReadError::Columns(ColumnError::ScaledComplex { at })) => scale && at < cols.len()
                && (cols[at as int].letter is C || cols[at as int].letter is M) && !is_plain(
                cols[at as int].tscal,
                cols[at as int].tzero,
            ),
            Err(ReadError::Rows(e)) => read_order(sel, nrows) == Err::<Seq<usize>, RowError>(e),
            Err(_) => false,
        },
{
    lemma_refused_null(cols);
    lemma_refused_kind(cols, scale);
}

proof fn lemma_refused_null(cols: Seq<ColumnView>)
    ensures
        first_var_null(cols) matches Some(i) ==> 0 <= i < cols.len() && cols[i].tnull is Some
            && cols[i].var_kind is Some,
    decreases cols.len(),
{
    if cols.len() > 0 {
        lemma_refused_null(cols.drop_last());
    }
}

proof fn lemma_refused_kind(cols: Seq<ColumnView>, scale: bool)
    requires
        cols.len() <= usize::MAX,
    ensures
        match plan_kinds(cols, scale) {
            Ok(_) => true,
            Err(ColumnError::ScaledComplex { at }) => scale && at < cols.len() && (
            cols[at as int].letter is C || cols[at as int].letter is M) && !is_plain(
                cols[at as int].tscal,
                cols[at as int].tzero,
            ),
            Err(_) => false,
        },
    decreases cols.len(),
{
    if cols.len() > 0 {
        lemma_refused_kind(cols.drop_last(), scale);
    }
}

// Formats ------------------------------------------------------------------

/// A format is a count in digits, a letter, and for cells in the heap a letter
/// behind it. Anything else behind the letter is refused, and so is a count that
/// is no number.
pub proof fn law_format_pieces(d: Seq<char>, x: char, rest: Seq<char>, column: u64)
    requires
        d.len() > 0,
        all_digits(d),
        is_letter(x),
        rest.len() > 0 ==> !is_white(rest[0]) && !is_white(rest.last()),
    ensures
        ({
            let r = tform_pieces(d.push(x) + rest, column);
            if digits_value(d) > usize::MAX {
                r == Err::<Tform, HeaderError>(HeaderError::RepeatNotInteger { column })
            } else if x != 'P' && x != 'Q' {
                if rest.len() == 0 {
                    r == Ok::<Tform, HeaderError>(
                        Tform { repeat: digits_value(d) as usize, letter: x, inner: None },
                    )
                } else {
                    r == Err::<Tform, HeaderError>(HeaderError::TrailingModifier { column })
                }
            } else if rest.len() == 0 {
                r == Err::<Tform, HeaderError>(HeaderError::MissingInnerLetter { column })
            } else if !is_letter(rest[0]) {
                r is Err
            } else if rest.len() == 1 {
                r == Ok::<Tform, HeaderError>(
                    Tform { repeat: digits_value(d) as usize, letter: x, inner: Some(rest[0]) },
                )
            } else {
                r matches Ok(t) ==> t.inner == Some(rest[0]) && t.letter == x && t.repeat
                    == digits_value(d)
            }
        }),
{
    let s = d.push(x) + rest;
    assert(is_digit(d[0]));
    assert(s[0] == d[0]);
    if rest.len() > 0 {
        assert(s.last() == rest.last());
    } else {
        assert(s.last() == x);
    }
    lemma_trimmed(s);
    let tail = seq![x] + rest;
    assert(s =~= d + tail);
    lemma_before_letter(d, tail);
    assert(s.take(d.len() as int) =~= d);
    law_parsed(d);
    assert(s.skip(d.len() as int + 1) =~= rest);
    assert(s[d.len() as int] == x);
    if rest.len() > 0 {
        lemma_trimmed(rest);
        if rest.len() == 1 {
            assert(rest.drop_first() =~= Seq::empty());
        }
    }
    assert(trimmed(Seq::<char>::empty()).len() == 0);
    assert(rest.len() == 0 ==> rest =~= Seq::empty());
}

/// A column is what the pieces of its format say: of fixed-width elements so many
/// of its letter, and of cells in the heap one descriptor of its form.
pub proof fn law_column_of_format(k: KeywordsView, column: u64, offset: usize)
    requires
        column_from(k, column, offset) is Ok,
    ensures
        ({
            let c = column_from(k, column, offset)->Ok_0;
            k.tform is Some && (tform_pieces(k.tform->0, column) matches Ok(t) && match t.inner {
                None => c.var_kind is None && c.repeat == t.repeat && stands_for(
                    t.letter,
                    c.letter,
                ),
                Some(inner) => t.repeat == 1 && c.repeat == 1 && stands_for(inner, c.letter)
                    && c.var_kind == Some(
                    if t.letter == 'P' {
                        Descriptor::P
                    } else {
                        Descriptor::Q
                    },
                ) && k.tdim is None,
            })
        }),
{
    let c = column_from(k, column, offset)->Ok_0;
    let t = tform_pieces(k.tform->0, column)->Ok_0;
    match t.inner {
        None => {
            law_signs(c.letter, t.letter);
        },
        Some(inner) => {
            law_signs(c.letter, inner);
        },
    }
}

} // verus!
