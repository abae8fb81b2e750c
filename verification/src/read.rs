//! Reading: the plan of a read, and the rows of the file turned into records.

use vstd::prelude::*;

use crate::bytes::{ByteOrder, copy_of, lemma_next_unit, lemma_unit_below, splice, write_at};
use crate::cells::{
    cell_value, convert_column_cell, lemma_cell_value_width, null_mask, scaling_fits, string_len,
    unit, value_width, write_cell_mask,
};
use crate::columns::{
    Column, ColumnView, Letter, ScalingKind, column_ok, columns_ok, lemma_columns_fill, scaling,
    scaling_kind, views,
};
use crate::error::{CellError, ColumnError, ReadError};
use crate::fields::{
    NumpyType, cell_shape, chosen, column_expected_shape, column_with_key, copy_columns,
    field_dtype_and_shape, field_type, find_key, lemma_columns_named, read_scaling, request_key,
    request_key_of, requested_columns, resolve_columns, string_length,
};
use crate::heap::{VarCell, descriptor_value, read_descriptor};
use crate::keywords::TableMeta;
use crate::rows::{RowSelector, law_selected_rows};
use crate::runs::{
    Chunk, RunPlan, all_pairs, chunk_in, chunk_pairs, chunk_rows, chunks_cover, has_place,
    law_chunk_pairs, lemma_run_at, lemma_runs_distinct, lemma_runs_places, plan_runs, read_order,
    run_pairs, runs_hold,
};
use crate::text::texts;

verus! {

/// Whether what is known of a table can be used on this machine: its columns
/// fill its rows, and its counts fit.
pub open spec fn meta_ok(m: TableMeta) -> bool {
    &&& columns_ok(views(m.columns@), m.row_width as int)
    &&& m.nrows <= i64::MAX
    &&& m.nrows <= usize::MAX
    &&& m.row_width <= usize::MAX
}

// The plan -----------------------------------------------------------------

/// What a read does: which columns it takes, how it scales them, and which
/// stretches of the file it goes through.
#[derive(Debug)]
pub struct ReadPlan {
    pub columns: Vec<Column>,
    pub kinds: Vec<ScalingKind>,
    /// Characters are read as the raw bytes of the file.
    pub as_bytes: bool,
    /// The rows of the result.
    pub n_out: usize,
    pub runs: Vec<RunPlan>,
    /// The result comes with a mask of nulls.
    pub masked: bool,
}

/// The columns of a request; without one, all of them.
pub open spec fn plan_columns(all: Seq<ColumnView>, names: Option<Vec<String>>) -> Result<
    Seq<ColumnView>,
    ColumnError,
> {
    match names {
        None => Ok(all),
        Some(n) => match requested_columns(all, texts(n@)) {
            Err(e) => Err(e),
            Ok(places) => Ok(chosen(all, places)),
        },
    }
}

/// The first column that has nulls and its cells in the heap.
pub open spec fn first_var_null(cols: Seq<ColumnView>) -> Option<int>
    decreases cols.len(),
{
    if cols.len() == 0 {
        None
    } else {
        match first_var_null(cols.drop_last()) {
            Some(i) => Some(i),
            None => if cols.last().tnull is Some && cols.last().var_kind is Some {
                Some(cols.len() - 1)
            } else {
                None
            },
        }
    }
}

proof fn lemma_first_var_null(cols: Seq<ColumnView>, k: int)
    requires
        0 <= k <= cols.len(),
        first_var_null(cols.take(k)) is Some,
    ensures
        first_var_null(cols) == first_var_null(cols.take(k)),
    decreases cols.len(),
{
    if k < cols.len() {
        assert(cols.drop_last().take(k) =~= cols.take(k));
        lemma_first_var_null(cols.drop_last(), k);
    } else {
        assert(cols.take(k) =~= cols);
    }
}

/// Refuses to mask nulls of cells that are in the heap.
pub fn reject_var_tnull(cols: &[Column]) -> (r: Result<(), ColumnError>)
    ensures
        match r {
            Ok(_) => first_var_null(views(cols@)) is None,
            Err(e) => first_var_null(views(cols@)) matches Some(i) && e == (
            ColumnError::VariableNull { at: i as usize }),
        },
{
    let n: usize = cols.len();
    let ghost v = views(cols@);
    let mut i: usize = 0;
    assert(v.take(0) =~= Seq::empty());
    while i < n
        invariant
            i <= n == cols@.len(),
            v == views(cols@),
            first_var_null(v.take(i as int)) is None,
        decreases n - i,
    {
        proof {
            assert(v.take(i + 1).drop_last() =~= v.take(i as int));
        }
        if cols[i].tnull.is_some() && cols[i].var_kind.is_some() {
            proof {
                lemma_first_var_null(v, i + 1);
            }
            return Err(ColumnError::VariableNull { at: i });
        }
        i = i + 1;
    }
    assert(v.take(n as int) =~= v);
    Ok(())
}

/// How the columns are scaled, or the first one of scaled complex numbers.
pub open spec fn plan_kinds(cols: Seq<ColumnView>, scale: bool) -> Result<
    Seq<ScalingKind>,
    ColumnError,
>
    decreases cols.len(),
{
    if cols.len() == 0 {
        Ok(Seq::empty())
    } else {
        match plan_kinds(cols.drop_last(), scale) {
            Err(e) => Err(e),
            Ok(s) => match read_scaling(cols.last(), scale) {
                Some(k) => Ok(s.push(k)),
                None => Err(ColumnError::ScaledComplex { at: (cols.len() - 1) as usize }),
            },
        }
    }
}

proof fn lemma_kinds_prefix(cols: Seq<ColumnView>, k: int, scale: bool)
    requires
        0 <= k <= cols.len(),
        plan_kinds(cols.take(k), scale) is Err,
    ensures
        plan_kinds(cols, scale) == plan_kinds(cols.take(k), scale),
    decreases cols.len(),
{
    if k < cols.len() {
        assert(cols.drop_last().take(k) =~= cols.take(k));
        lemma_kinds_prefix(cols.drop_last(), k, scale);
    } else {
        assert(cols.take(k) =~= cols);
    }
}

/// The kinds of scaling of a plan apply to their columns.
proof fn lemma_kinds(cols: Seq<ColumnView>, scale: bool)
    ensures
        plan_kinds(cols, scale) matches Ok(s) ==> {
            &&& s.len() == cols.len()
            &&& forall|i: int|
                0 <= i < s.len() ==> read_scaling(cols[i], scale) == Some(#[trigger] s[i])
        },
    decreases cols.len(),
{
    if cols.len() > 0 {
        let t = cols.drop_last();
        lemma_kinds(t, scale);
        assert(forall|i: int| 0 <= i < t.len() ==> cols[i] == t[i]);
    }
}

fn kinds_of(cols: &[Column], scale: bool) -> (r: Result<Vec<ScalingKind>, ColumnError>)
    ensures
        match r {
            Ok(v) => plan_kinds(views(cols@), scale) == Ok::<Seq<ScalingKind>, ColumnError>(v@),
            Err(e) => plan_kinds(views(cols@), scale) == Err::<Seq<ScalingKind>, ColumnError>(e),
        },
{
    let n: usize = cols.len();
    let ghost v = views(cols@);
    let mut r: Vec<ScalingKind> = Vec::new();
    let mut i: usize = 0;
    assert(v.take(0) =~= Seq::empty());
    while i < n
        invariant
            i <= n == cols@.len(),
            v == views(cols@),
            plan_kinds(v.take(i as int), scale) == Ok::<Seq<ScalingKind>, ColumnError>(r@),
        decreases n - i,
    {
        proof {
            assert(v.take(i + 1).drop_last() =~= v.take(i as int));
            assert(v.take(i + 1).last() == cols@[i as int]@);
        }
        let kind: Option<ScalingKind> = if scale {
            scaling_kind(&cols[i])
        } else {
            Some(ScalingKind::Unscaled)
        };
        match kind {
            Some(k) => {
                r.push(k);
            },
            None => {
                proof {
                    lemma_kinds_prefix(v, i + 1, scale);
                }
                return Err(ColumnError::ScaledComplex { at: i });
            },
        }
        i = i + 1;
    }
    assert(v.take(n as int) =~= v);
    Ok(r)
}

/// Whether any column has a null value.
pub open spec fn has_null(cols: Seq<ColumnView>) -> bool {
    exists|i: int| 0 <= i < cols.len() && (#[trigger] cols[i]).tnull is Some
}

fn any_null(cols: &[Column]) -> (r: bool)
    ensures
        r == has_null(views(cols@)),
{
    let n: usize = cols.len();
    let mut i: usize = 0;
    while i < n
        invariant
            i <= n == cols@.len(),
            forall|k: int| 0 <= k < i ==> (#[trigger] views(cols@)[k]).tnull is None,
        decreases n - i,
    {
        if cols[i].tnull.is_some() {
            assert(views(cols@)[i as int].tnull is Some);
            return true;
        }
        i = i + 1;
    }
    false
}

/// Whether a plan fits rows of a width: each column is in the row and scaled in
/// a way that applies to it.
pub open spec fn plan_fits(p: ReadPlan, row_width: int) -> bool {
    let cols = views(p.columns@);
    &&& p.kinds@.len() == p.columns@.len()
    &&& forall|i: int|
        0 <= i < cols.len() ==> {
            &&& column_ok(#[trigger] cols[i])
            &&& cols[i].byte_offset + cols[i].byte_width <= row_width
            &&& scaling_fits(cols[i].letter, p.kinds@[i])
            &&& (cols[i].letter is A || cols[i].letter is X ==> p.kinds@[i] is Unscaled)
        }
}

/// What the plan of a read of columns is: the columns, then the refusal of
/// masked cells in the heap, then the scaling, then the rows.
pub open spec fn read_plan_of(
    cols: Seq<ColumnView>,
    nrows: usize,
    sel: Option<RowSelector>,
    scale: bool,
    mask_null: bool,
) -> Result<(Seq<ScalingKind>, Seq<usize>), ReadError> {
    if mask_null && first_var_null(cols) is Some {
        Err(
            ReadError::Columns(
                ColumnError::VariableNull { at: first_var_null(cols)->0 as usize },
            ),
        )
    } else {
        match plan_kinds(cols, scale) {
            Err(e) => Err(ReadError::Columns(e)),
            Ok(kinds) => match read_order(sel, nrows) {
                Err(e) => Err(ReadError::Rows(e)),
                Ok(order) => Ok((kinds, order)),
            },
        }
    }
}

/// Whether the runs of a plan are in themselves sound: each has a place in the
/// result for each of its rows.
pub open spec fn runs_ok(runs: Seq<RunPlan>, n_out: usize) -> bool {
    forall|k: int|
        0 <= k < runs.len() ==> {
            &&& (#[trigger] runs[k]).output@.len() == runs[k].len
            &&& runs[k].start + runs[k].len <= i64::MAX
            &&& runs[k].start + runs[k].len <= usize::MAX
            &&& forall|i: int| 0 <= i < runs[k].len ==> (#[trigger] runs[k].output@[i]) < n_out
        }
}

proof fn lemma_runs_ok(runs: Seq<RunPlan>, order: Seq<usize>)
    requires
        runs_hold(runs, order),
        forall|i: int| 0 <= i < order.len() ==> order[i] <= i64::MAX,
        order.len() <= usize::MAX,
    ensures
        runs_ok(runs, order.len() as usize),
{
    lemma_runs_places(runs, order);
    let p = all_pairs(runs);
    assert forall|k: int, i: int| 0 <= k < runs.len() && 0 <= i < runs[k].len implies (
    #[trigger] runs[k].output@[i]) < order.len() by {
        lemma_run_at(runs, k);
        let t = all_pairs(runs.take(k)).len() + i;
        assert(p[t] == run_pairs(runs[k])[i]);
    }
}

/// Whether a plan is the one for the given columns and answers.
pub open spec fn plan_is(
    p: ReadPlan,
    cols: Seq<ColumnView>,
    kinds: Seq<ScalingKind>,
    order: Seq<usize>,
    mask_null: bool,
) -> bool {
    &&& views(p.columns@) == cols
    &&& p.kinds@ == kinds
    &&& p.n_out == order.len()
    &&& runs_hold(p.runs@, order)
    &&& runs_ok(p.runs@, p.n_out)
    &&& p.masked == (mask_null && has_null(cols))
}

fn plan_columns_rows(
    columns: Vec<Column>,
    as_bytes: bool,
    nrows: usize,
    sel: &Option<RowSelector>,
    scale: bool,
    mask_null: bool,
) -> (r: Result<ReadPlan, ReadError>)
    requires
        nrows <= i64::MAX,
    ensures
        match r {
            Ok(p) => read_plan_of(views(columns@), nrows, *sel, scale, mask_null) matches Ok(
                (kinds, order),
            ) && plan_is(p, views(columns@), kinds, order, mask_null) && p.as_bytes == as_bytes,
            Err(e) => read_plan_of(views(columns@), nrows, *sel, scale, mask_null) == Err::<
                (Seq<ScalingKind>, Seq<usize>),
                ReadError,
            >(e),
        },
{
    if mask_null {
        match reject_var_tnull(&columns) {
            Ok(_) => {},
            Err(e) => {
                return Err(ReadError::Columns(e));
            },
        }
    }
    let kinds: Vec<ScalingKind> = match kinds_of(&columns, scale) {
        Ok(k) => k,
        Err(e) => {
            return Err(ReadError::Columns(e));
        },
    };
    match plan_runs(sel, nrows) {
        Err(e) => Err(ReadError::Rows(e)),
        Ok((n_out, runs)) => {
            proof {
                let order = read_order(*sel, nrows)->Ok_0;
                if sel is Some {
                    law_selected_rows(sel->0, nrows);
                }
                lemma_runs_ok(runs@, order);
            }
            let masked: bool = mask_null && any_null(&columns);
            Ok(ReadPlan { columns, kinds, as_bytes, n_out, runs, masked })
        },
    }
}

/// Plans the read of a table.
pub fn plan_read(
    meta: &TableMeta,
    sel: &Option<RowSelector>,
    names: &Option<Vec<String>>,
    scale: bool,
    mask_null: bool,
) -> (r: Result<ReadPlan, ReadError>)
    requires
        meta_ok(*meta),
    ensures
        match plan_columns(views(meta.columns@), *names) {
            Err(e) => r == Err::<ReadPlan, ReadError>(ReadError::Columns(e)),
            Ok(cols) => match read_plan_of(cols, meta.nrows as usize, *sel, scale, mask_null) {
                Err(e) => r == Err::<ReadPlan, ReadError>(e),
                Ok((kinds, order)) => r matches Ok(p) && plan_is(p, cols, kinds, order, mask_null)
                    && !p.as_bytes && plan_fits(p, meta.row_width as int),
            },
        },
{
    let columns: Vec<Column> = match names {
        None => copy_columns(&meta.columns),
        Some(n) => match resolve_columns(&meta.columns, n) {
            Ok(c) => c,
            Err(e) => {
                return Err(ReadError::Columns(e));
            },
        },
    };
    let ghost cols = views(columns@);
    proof {
        let all = views(meta.columns@);
        lemma_columns_fill(all, meta.row_width as int);
        if names is Some {
            lemma_columns_named(all, texts(names->0@));
        }
        assert forall|i: int| 0 <= i < cols.len() implies column_ok(#[trigger] cols[i])
            && cols[i].byte_offset + cols[i].byte_width <= meta.row_width by {
            if names is Some {
                let places = requested_columns(all, texts(names->0@))->Ok_0;
                assert(cols[i] == all[places[i]]);
            }
        }
        lemma_kinds(cols, scale);
    }
    plan_columns_rows(columns, false, meta.nrows as usize, sel, scale, mask_null)
}

/// Plans the read of one column. Raw bytes can be asked of characters only.
pub fn plan_read_column(
    meta: &TableMeta,
    name: &str,
    sel: &Option<RowSelector>,
    as_bytes: bool,
    scale: bool,
    mask_null: bool,
) -> (r: Result<ReadPlan, ReadError>)
    requires
        meta_ok(*meta),
    ensures
        match column_with_key(views(meta.columns@), request_key(name@)) {
            None => r == Err::<ReadPlan, ReadError>(
                ReadError::Columns(ColumnError::UnknownName { at: 0 }),
            ),
            Some(i) => {
                let col = views(meta.columns@)[i];
                if as_bytes && !(col.letter is A) {
                    r == Err::<ReadPlan, ReadError>(
                        ReadError::Columns(
                            ColumnError::NotCharacters {
                                letter: crate::columns::letter_sign(col.letter),
                            },
                        ),
                    )
                } else {
                    match read_plan_of(seq![col], meta.nrows as usize, *sel, scale, mask_null) {
                        Err(e) => r == Err::<ReadPlan, ReadError>(e),
                        Ok((kinds, order)) => r matches Ok(p) && plan_is(
                            p,
                            seq![col],
                            kinds,
                            order,
                            mask_null,
                        ) && p.as_bytes == as_bytes && plan_fits(p, meta.row_width as int),
                    }
                }
            },
        },
{
    let key: Vec<char> = request_key_of(name);
    let i: usize = match find_key(&meta.columns, &key) {
        None => {
            return Err(ReadError::Columns(ColumnError::UnknownName { at: 0 }));
        },
        Some(i) => i,
    };
    let col: Column = meta.columns[i].duplicate();
    let ghost cv = col@;
    assert(cv == views(meta.columns@)[i as int]);
    let is_text: bool = match col.letter {
        Letter::A => true,
        _ => false,
    };
    if as_bytes && !is_text {
        return Err(
            ReadError::Columns(
                ColumnError::NotCharacters { letter: crate::columns::letter_char(col.letter) },
            ),
        );
    }
    let columns: Vec<Column> = vec![col];
    proof {
        assert(views(columns@) =~= seq![cv]);
        lemma_columns_fill(views(meta.columns@), meta.row_width as int);
        lemma_kinds(seq![cv], scale);
    }
    plan_columns_rows(columns, as_bytes, meta.nrows as usize, sel, scale, mask_null)
}

/// The type that a column of a plan is read into: bytes of one string where the
/// raw bytes are asked for.
pub open spec fn plan_type(c: ColumnView, scale: bool, as_bytes: bool) -> Option<NumpyType> {
    if c.var_kind is None && as_bytes {
        Some(NumpyType::Bytes(string_len(c)))
    } else {
        field_type(c, scale)
    }
}

/// The type and the shape that one column is read into.
pub fn column_array_type(col: &Column, scale: bool, as_bytes: bool) -> (r: Option<
    (NumpyType, Vec<usize>),
>)
    requires
        column_ok(col@),
        as_bytes ==> col.letter is A,
    ensures
        match r {
            Some((t, shape)) => plan_type(col@, scale, as_bytes) == Some(t) && shape@
                == cell_shape(col@),
            None => plan_type(col@, scale, as_bytes) is None,
        },
{
    if col.var_kind.is_none() && as_bytes {
        Some((NumpyType::Bytes(string_length(col)), column_expected_shape(col)))
    } else {
        field_dtype_and_shape(col, scale)
    }
}

// Rows ---------------------------------------------------------------------

/// Where a field stands in a record.
#[derive(Clone, Copy, PartialEq, Eq, Structural, Debug)]
pub struct FieldPlace {
    pub offset: usize,
    pub width: usize,
}

/// Whether the library fills the field of a column: not for cells in the heap,
/// nor for scaled floats.
pub open spec fn field_filled(c: ColumnView, kind: ScalingKind) -> bool {
    c.var_kind is None && !(kind is General)
}

/// The value of a cell under a plan.
pub open spec fn plan_value(
    c: ColumnView,
    kind: ScalingKind,
    as_bytes: bool,
    src: Seq<u8>,
    order: ByteOrder,
) -> Result<Seq<u8>, CellError> {
    if as_bytes && c.letter is A {
        Ok(src)
    } else {
        cell_value(c, src, kind, order)
    }
}

/// The bytes of a cell under a plan.
pub open spec fn plan_width(c: ColumnView, kind: ScalingKind, as_bytes: bool) -> nat {
    if as_bytes && c.letter is A {
        c.byte_width as nat
    } else {
        value_width(c, kind)
    }
}

/// Whether the fields of a record have room for the values of a plan.
pub open spec fn places_fit(p: ReadPlan, places: Seq<FieldPlace>, itemsize: int) -> bool {
    let cols = views(p.columns@);
    &&& places.len() == cols.len()
    &&& forall|i: int|
        0 <= i < cols.len() && field_filled(cols[i], p.kinds@[i]) ==> (
        #[trigger] places[i]).offset + plan_width(cols[i], p.kinds@[i], p.as_bytes) <= itemsize
}

/// The records so far, and the descriptors met so far.
pub struct RowState {
    pub out: Seq<u8>,
    pub cells: Seq<VarCell>,
}

/// The bytes of a column in a row.
pub open spec fn cell_of(c: ColumnView, row: Seq<u8>) -> Seq<u8> {
    row.subrange(c.byte_offset as int, c.byte_offset + c.byte_width)
}

/// What a row makes of the records and descriptors, with its first `k` columns:
/// a value for each fixed-width cell at its place in the record that starts at
/// `base`, and a descriptor for each cell in the heap.
pub open spec fn row_state(
    p: ReadPlan,
    places: Seq<FieldPlace>,
    base: int,
    output_row: usize,
    row: Seq<u8>,
    order: ByteOrder,
    st: RowState,
    k: nat,
) -> Result<RowState, (int, CellError)>
    decreases k,
{
    if k == 0 {
        Ok(st)
    } else {
        let i = k - 1;
        let c = views(p.columns@)[i];
        match row_state(p, places, base, output_row, row, order, st, (k - 1) as nat) {
            Err(e) => Err(e),
            Ok(s) => match c.var_kind {
                Some(kind) => {
                    let d = descriptor_value(kind, cell_of(c, row));
                    Ok(
                        RowState {
                            out: s.out,
                            cells: s.cells.push(
                                VarCell {
                                    output_row,
                                    column: i as usize,
                                    nelements: d.0 as i64,
                                    heap_offset: d.1 as i64,
                                },
                            ),
                        },
                    )
                },
                None => if p.kinds@[i] is General {
                    Ok(s)
                } else {
                    match plan_value(c, p.kinds@[i], p.as_bytes, cell_of(c, row), order) {
                        Err(e) => Err((i, e)),
                        Ok(v) => Ok(
                            RowState {
                                out: splice(s.out, base + places[i].offset, v),
                                cells: s.cells,
                            },
                        ),
                    }
                },
            },
        }
    }
}

proof fn lemma_row_state_prefix(
    p: ReadPlan,
    places: Seq<FieldPlace>,
    base: int,
    output_row: usize,
    row: Seq<u8>,
    order: ByteOrder,
    st: RowState,
    m: nat,
    k: nat,
)
    requires
        m <= k,
        row_state(p, places, base, output_row, row, order, st, m) is Err,
    ensures
        row_state(p, places, base, output_row, row, order, st, k) == row_state(
            p,
            places,
            base,
            output_row,
            row,
            order,
            st,
            m,
        ),
    decreases k,
{
    if m < k {
        lemma_row_state_prefix(p, places, base, output_row, row, order, st, m, (k - 1) as nat);
    }
}

/// Turns one row of the file into a record.
pub fn convert_row(
    p: &ReadPlan,
    places: &Vec<FieldPlace>,
    itemsize: usize,
    output_row: usize,
    row: &[u8],
    order: ByteOrder,
    out: &mut Vec<u8>,
    cells: &mut Vec<VarCell>,
) -> (r: Result<(), (usize, CellError)>)
    requires
        plan_fits(*p, row@.len() as int),
        places_fit(*p, places@, itemsize as int),
        output_row * itemsize + itemsize <= old(out)@.len(),
    ensures
        final(out)@.len() == old(out)@.len(),
        match r {
            Ok(_) => row_state(
                *p,
                places@,
                output_row * itemsize,
                output_row,
                row@,
                order,
                RowState { out: old(out)@, cells: old(cells)@ },
                p.columns@.len(),
            ) == Ok::<RowState, (int, CellError)>(
                RowState { out: final(out)@, cells: final(cells)@ },
            ),
            Err((i, e)) => row_state(
                *p,
                places@,
                output_row * itemsize,
                output_row,
                row@,
                order,
                RowState { out: old(out)@, cells: old(cells)@ },
                p.columns@.len(),
            ) == Err::<RowState, (int, CellError)>((i as int, e)),
        },
{
    let total: usize = out.len();
    proof {
        vstd::arithmetic::mul::lemma_mul_nonnegative(output_row as int, itemsize as int);
    }
    let base: usize = output_row * itemsize;
    let ghost st = RowState { out: old(out)@, cells: old(cells)@ };
    let ghost cols = views(p.columns@);
    let n: usize = p.columns.len();
    let mut i: usize = 0;
    while i < n
        invariant
            i <= n == p.columns@.len() == cols.len(),
            plan_fits(*p, row@.len() as int),
            places_fit(*p, places@, itemsize as int),
            total == out@.len() == old(out)@.len(),
            st == (RowState { out: old(out)@, cells: old(cells)@ }),
            base == output_row * itemsize,
            base + itemsize <= total,
            cols == views(p.columns@),
            row_state(*p, places@, base as int, output_row, row@, order, st, i as nat) == Ok::<
                RowState,
                (int, CellError),
            >(RowState { out: out@, cells: cells@ }),
        decreases n - i,
    {
        let col: &Column = &p.columns[i];
        let ghost c = cols[i as int];
        assert(c == col@);
        assert(column_ok(cols[i as int]));
        let src: Vec<u8> = copy_of(row, col.byte_offset, col.byte_width);
        assert(src@ == cell_of(c, row@));
        match col.var_kind {
            Some(kind) => {
                let (nelements, heap_offset) = read_descriptor(kind, &src);
                cells.push(VarCell { output_row, column: i, nelements, heap_offset });
            },
            None => match p.kinds[i] {
                ScalingKind::General => {},
                kind => {
                    let raw: bool = p.as_bytes && match col.letter {
                        Letter::A => true,
                        _ => false,
                    };
                    let at: FieldPlace = places[i];
                    assert(field_filled(c, p.kinds@[i as int]));
                    assert(at.offset + plan_width(c, kind, p.as_bytes) <= itemsize);
                    if raw {
                        write_at(out, base + at.offset, &src);
                    } else {
                        match convert_column_cell(col, &src, kind, order) {
                            Ok(v) => {
                                write_at(out, base + at.offset, &v);
                            },
                            Err(e) => {
                                proof {
                                    lemma_row_state_prefix(
                                        *p,
                                        places@,
                                        base as int,
                                        output_row,
                                        row@,
                                        order,
                                        st,
                                        (i + 1) as nat,
                                        n as nat,
                                    );
                                }
                                return Err((i, e));
                            },
                        }
                    }
                },
            },
        }
        i = i + 1;
    }
    Ok(())
}

/// What rows make of the records and descriptors, one after the other. Row `t`
/// is row `pairs[t].0` of the table and goes to record `pairs[t].1`.
pub open spec fn rows_state(
    p: ReadPlan,
    places: Seq<FieldPlace>,
    itemsize: int,
    rows: Seq<Seq<u8>>,
    pairs: Seq<(i64, usize)>,
    order: ByteOrder,
    st: RowState,
) -> Result<RowState, ReadError>
    decreases rows.len(),
{
    if rows.len() == 0 {
        Ok(st)
    } else {
        let pair = pairs[rows.len() - 1];
        match rows_state(p, places, itemsize, rows.drop_last(), pairs, order, st) {
            Err(e) => Err(e),
            Ok(s) => match row_state(
                p,
                places,
                pair.1 * itemsize,
                pair.1,
                rows.last(),
                order,
                s,
                p.columns@.len(),
            ) {
                Ok(s) => Ok(s),
                Err((i, e)) => Err(
                    ReadError::Cell { column: i as usize, row: pair.0 as usize, error: e },
                ),
            },
        }
    }
}

proof fn lemma_rows_state_prefix(
    p: ReadPlan,
    places: Seq<FieldPlace>,
    itemsize: int,
    rows: Seq<Seq<u8>>,
    pairs: Seq<(i64, usize)>,
    order: ByteOrder,
    st: RowState,
    k: int,
)
    requires
        0 <= k <= rows.len(),
        rows_state(p, places, itemsize, rows.take(k), pairs, order, st) is Err,
    ensures
        rows_state(p, places, itemsize, rows, pairs, order, st) == rows_state(
            p,
            places,
            itemsize,
            rows.take(k),
            pairs,
            order,
            st,
        ),
    decreases rows.len(),
{
    if k < rows.len() {
        assert(rows.drop_last().take(k) =~= rows.take(k));
        lemma_rows_state_prefix(p, places, itemsize, rows.drop_last(), pairs, order, st, k);
    } else {
        assert(rows.take(k) =~= rows);
    }
}

/// The rows of a piece of the file.
pub open spec fn row_units(bytes: Seq<u8>, width: int, n: nat) -> Seq<Seq<u8>> {
    Seq::new(n, |i: int| unit(bytes, width, i))
}

/// Turns the rows of a piece of the file into records.
pub fn convert_rows(
    p: &ReadPlan,
    places: &Vec<FieldPlace>,
    itemsize: usize,
    row_width: usize,
    chunk: Chunk,
    bytes: &[u8],
    order: ByteOrder,
    out: &mut Vec<u8>,
    cells: &mut Vec<VarCell>,
) -> (r: Result<(), ReadError>)
    requires
        plan_fits(*p, row_width as int),
        places_fit(*p, places@, itemsize as int),
        chunk_in(chunk, p.runs@),
        runs_ok(p.runs@, p.n_out),
        bytes@.len() == chunk.rows * row_width,
        old(out)@.len() == p.n_out * itemsize,
    ensures
        final(out)@.len() == old(out)@.len(),
        match r {
            Ok(_) => rows_state(
                *p,
                places@,
                itemsize as int,
                row_units(bytes@, row_width as int, chunk.rows as nat),
                chunk_pairs(chunk, p.runs@),
                order,
                RowState { out: old(out)@, cells: old(cells)@ },
            ) == Ok::<RowState, ReadError>(RowState { out: final(out)@, cells: final(cells)@ }),
            Err(e) => rows_state(
                *p,
                places@,
                itemsize as int,
                row_units(bytes@, row_width as int, chunk.rows as nat),
                chunk_pairs(chunk, p.runs@),
                order,
                RowState { out: old(out)@, cells: old(cells)@ },
            ) == Err::<RowState, ReadError>(e),
        },
{
    let n: usize = chunk.rows;
    let total: usize = bytes.len();
    let ghost st = RowState { out: old(out)@, cells: old(cells)@ };
    let ghost rows = row_units(bytes@, row_width as int, n as nat);
    let ghost pairs = chunk_pairs(chunk, p.runs@);
    let mut i: usize = 0;
    assert(rows.take(0) =~= Seq::empty());
    while i < n
        invariant
            i <= n == chunk.rows,
            total == bytes@.len() == n * row_width,
            plan_fits(*p, row_width as int),
            places_fit(*p, places@, itemsize as int),
            chunk_in(chunk, p.runs@),
            runs_ok(p.runs@, p.n_out),
            out@.len() == p.n_out * itemsize == old(out)@.len(),
            st == (RowState { out: old(out)@, cells: old(cells)@ }),
            rows == row_units(bytes@, row_width as int, n as nat),
            pairs == chunk_pairs(chunk, p.runs@),
            rows_state(*p, places@, itemsize as int, rows.take(i as int), pairs, order, st) == Ok::<
                RowState,
                ReadError,
            >(RowState { out: out@, cells: cells@ }),
        decreases n - i,
    {
        proof {
            lemma_unit_below(i as int, n as int, row_width as int);
            lemma_next_unit(i as int, row_width as int);
        }
        let row: &[u8] = &bytes[i * row_width..i * row_width + row_width];
        let output_row: usize = p.runs[chunk.run].output[chunk.local + i];
        proof {
            assert(output_row < p.n_out);
            lemma_unit_below(output_row as int, p.n_out as int, itemsize as int);
            assert(row@ == rows[i as int]);
            assert(rows.take(i + 1).drop_last() =~= rows.take(i as int));
            assert(rows.take(i + 1).last() == rows[i as int]);
            assert(pairs[i as int] == ((chunk.start + i) as i64, output_row));
        }
        match convert_row(p, places, itemsize, output_row, row, order, out, cells) {
            Ok(_) => {},
            Err((column, error)) => {
                proof {
                    lemma_rows_state_prefix(
                        *p,
                        places@,
                        itemsize as int,
                        rows,
                        pairs,
                        order,
                        st,
                        i + 1,
                    );
                }
                return Err(ReadError::Cell { column, row: chunk.start + i, error });
            },
        }
        i = i + 1;
    }
    assert(rows.take(n as int) =~= rows);
    Ok(())
}

// Masks --------------------------------------------------------------------

/// Whether the fields of a mask record have room for one byte per element of
/// the columns with nulls.
pub open spec fn mask_fits(p: ReadPlan, places: Seq<FieldPlace>, itemsize: int) -> bool {
    let cols = views(p.columns@);
    &&& places.len() == cols.len()
    &&& forall|i: int|
        0 <= i < cols.len() && cols[i].tnull is Some ==> (#[trigger] places[i]).offset
            + cols[i].repeat <= itemsize
}

/// The mask with the first `k` columns of a row marked in the record that
/// starts at `base`.
pub open spec fn row_mask(
    cols: Seq<ColumnView>,
    places: Seq<FieldPlace>,
    base: int,
    row: Seq<u8>,
    mask: Seq<u8>,
    k: nat,
) -> Seq<u8>
    decreases k,
{
    if k == 0 {
        mask
    } else {
        let i = k - 1;
        let m = row_mask(cols, places, base, row, mask, (k - 1) as nat);
        match cols[i].tnull {
            None => m,
            Some(t) => splice(
                m,
                base + places[i].offset,
                null_mask(cols[i].letter, cols[i].repeat as nat, t, cell_of(cols[i], row)),
            ),
        }
    }
}

/// Marks the nulls of a row.
pub fn write_row_mask(
    p: &ReadPlan,
    places: &Vec<FieldPlace>,
    itemsize: usize,
    output_row: usize,
    row: &[u8],
    mask: &mut Vec<u8>,
)
    requires
        plan_fits(*p, row@.len() as int),
        first_var_null(views(p.columns@)) is None,
        mask_fits(*p, places@, itemsize as int),
        output_row * itemsize + itemsize <= old(mask)@.len(),
    ensures
        final(mask)@ == row_mask(
            views(p.columns@),
            places@,
            output_row * itemsize,
            row@,
            old(mask)@,
            p.columns@.len(),
        ),
        final(mask)@.len() == old(mask)@.len(),
{
    let total: usize = mask.len();
    proof {
        vstd::arithmetic::mul::lemma_mul_nonnegative(output_row as int, itemsize as int);
    }
    let base: usize = output_row * itemsize;
    let ghost cols = views(p.columns@);
    let n: usize = p.columns.len();
    let mut i: usize = 0;
    while i < n
        invariant
            i <= n == p.columns@.len() == cols.len(),
            plan_fits(*p, row@.len() as int),
            first_var_null(cols) is None,
            mask_fits(*p, places@, itemsize as int),
            total == mask@.len() == old(mask)@.len(),
            base == output_row * itemsize,
            base + itemsize <= total,
            cols == views(p.columns@),
            mask@ == row_mask(cols, places@, base as int, row@, old(mask)@, i as nat),
        decreases n - i,
    {
        let col: &Column = &p.columns[i];
        let ghost c = cols[i as int];
        assert(c == col@);
        assert(column_ok(cols[i as int]));
        match col.tnull {
            None => {},
            Some(t) => {
                proof {
                    lemma_no_var_null(cols, i as int);
                }
                let src: Vec<u8> = copy_of(row, col.byte_offset, col.byte_width);
                let m: Vec<u8> = write_cell_mask(col.letter, col.repeat, t, &src);
                let at: FieldPlace = places[i];
                assert(at.offset + c.repeat <= itemsize);
                write_at(mask, base + at.offset, &m);
            },
        }
        i = i + 1;
    }
}

proof fn lemma_no_var_null(cols: Seq<ColumnView>, i: int)
    requires
        0 <= i < cols.len(),
        first_var_null(cols) is None,
        cols[i].tnull is Some,
    ensures
        cols[i].var_kind is None,
    decreases cols.len(),
{
    if i < cols.len() - 1 {
        assert(cols.drop_last()[i] == cols[i]);
        lemma_no_var_null(cols.drop_last(), i);
    }
}

/// The mask with the rows marked, one after the other.
pub open spec fn rows_mask(
    cols: Seq<ColumnView>,
    places: Seq<FieldPlace>,
    itemsize: int,
    rows: Seq<Seq<u8>>,
    pairs: Seq<(i64, usize)>,
    mask: Seq<u8>,
) -> Seq<u8>
    decreases rows.len(),
{
    if rows.len() == 0 {
        mask
    } else {
        row_mask(
            cols,
            places,
            pairs[rows.len() - 1].1 * itemsize,
            rows.last(),
            rows_mask(cols, places, itemsize, rows.drop_last(), pairs, mask),
            cols.len(),
        )
    }
}

/// Marks the nulls of the rows of a piece of the file.
pub fn mask_rows(
    p: &ReadPlan,
    places: &Vec<FieldPlace>,
    itemsize: usize,
    row_width: usize,
    chunk: Chunk,
    bytes: &[u8],
    mask: &mut Vec<u8>,
)
    requires
        plan_fits(*p, row_width as int),
        first_var_null(views(p.columns@)) is None,
        mask_fits(*p, places@, itemsize as int),
        chunk_in(chunk, p.runs@),
        runs_ok(p.runs@, p.n_out),
        bytes@.len() == chunk.rows * row_width,
        old(mask)@.len() == p.n_out * itemsize,
    ensures
        final(mask)@ == rows_mask(
            views(p.columns@),
            places@,
            itemsize as int,
            row_units(bytes@, row_width as int, chunk.rows as nat),
            chunk_pairs(chunk, p.runs@),
            old(mask)@,
        ),
        final(mask)@.len() == old(mask)@.len(),
{
    let n: usize = chunk.rows;
    let total: usize = bytes.len();
    let ghost cols = views(p.columns@);
    let ghost rows = row_units(bytes@, row_width as int, n as nat);
    let ghost pairs = chunk_pairs(chunk, p.runs@);
    let mut i: usize = 0;
    assert(rows.take(0) =~= Seq::empty());
    while i < n
        invariant
            i <= n == chunk.rows,
            total == bytes@.len() == n * row_width,
            plan_fits(*p, row_width as int),
            cols == views(p.columns@),
            first_var_null(cols) is None,
            mask_fits(*p, places@, itemsize as int),
            chunk_in(chunk, p.runs@),
            runs_ok(p.runs@, p.n_out),
            mask@.len() == p.n_out * itemsize == old(mask)@.len(),
            rows == row_units(bytes@, row_width as int, n as nat),
            pairs == chunk_pairs(chunk, p.runs@),
            mask@ == rows_mask(
                cols,
                places@,
                itemsize as int,
                rows.take(i as int),
                pairs,
                old(mask)@,
            ),
        decreases n - i,
    {
        proof {
            lemma_unit_below(i as int, n as int, row_width as int);
            lemma_next_unit(i as int, row_width as int);
        }
        let row: &[u8] = &bytes[i * row_width..i * row_width + row_width];
        let output_row: usize = p.runs[chunk.run].output[chunk.local + i];
        proof {
            assert(output_row < p.n_out);
            lemma_unit_below(output_row as int, p.n_out as int, itemsize as int);
            assert(row@ == rows[i as int]);
            assert(rows.take(i + 1).drop_last() =~= rows.take(i as int));
            assert(rows.take(i + 1).last() == rows[i as int]);
            assert(pairs[i as int] == ((chunk.start + i) as i64, output_row));
        }
        write_row_mask(p, places, itemsize, output_row, row, mask);
        i = i + 1;
    }
    assert(rows.take(n as int) =~= rows);
}

// What a read gives --------------------------------------------------------

/// Whether the fields that are filled do not overlap.
pub open spec fn places_apart(p: ReadPlan, places: Seq<FieldPlace>) -> bool {
    let cols = views(p.columns@);
    forall|i: int, j: int|
        0 <= i < j < cols.len() && field_filled(cols[i], p.kinds@[i]) && field_filled(
            cols[j],
            p.kinds@[j],
        ) ==> (#[trigger] places[i]).offset + plan_width(cols[i], p.kinds@[i], p.as_bytes) <= (
        #[trigger] places[j]).offset || places[j].offset + plan_width(
            cols[j],
            p.kinds@[j],
            p.as_bytes,
        ) <= places[i].offset
}

/// Whether the field of a column in the record at `base` holds the value of its
/// cell in a row.
pub open spec fn field_holds(
    p: ReadPlan,
    places: Seq<FieldPlace>,
    base: int,
    row: Seq<u8>,
    order: ByteOrder,
    out: Seq<u8>,
    i: int,
) -> bool {
    let c = views(p.columns@)[i];
    let from = base + places[i].offset;
    field_filled(c, p.kinds@[i]) ==> (plan_value(
        c,
        p.kinds@[i],
        p.as_bytes,
        cell_of(c, row),
        order,
    ) matches Ok(v) && v == out.subrange(from, from + v.len()) && v.len() == plan_width(
        c,
        p.kinds@[i],
        p.as_bytes,
    ))
}

/// One row fills its record and leaves the other bytes alone.
proof fn lemma_row_fills(
    p: ReadPlan,
    places: Seq<FieldPlace>,
    itemsize: int,
    base: int,
    output_row: usize,
    row: Seq<u8>,
    order: ByteOrder,
    st: RowState,
    k: nat,
)
    requires
        plan_fits(p, row.len() as int),
        places_fit(p, places, itemsize),
        places_apart(p, places),
        0 <= base,
        base + itemsize <= st.out.len(),
        k <= p.columns@.len(),
        row_state(p, places, base, output_row, row, order, st, k) is Ok,
    ensures
        ({
            let s = row_state(p, places, base, output_row, row, order, st, k)->Ok_0;
            &&& s.out.len() == st.out.len()
            &&& forall|x: int|
                0 <= x < st.out.len() && !(base <= x < base + itemsize) ==> s.out[x] == st.out[x]
            &&& forall|i: int|
                0 <= i < k ==> #[trigger] field_holds(p, places, base, row, order, s.out, i)
        }),
    decreases k,
{
    if k > 0 {
        let cols = views(p.columns@);
        let j = k - 1;
        let c = cols[j];
        assert(column_ok(cols[j]));
        lemma_row_fills(
            p,
            places,
            itemsize,
            base,
            output_row,
            row,
            order,
            st,
            (k - 1) as nat,
        );
        let prev = row_state(p, places, base, output_row, row, order, st, (k - 1) as nat)->Ok_0;
        let s = row_state(p, places, base, output_row, row, order, st, k)->Ok_0;
        if field_filled(c, p.kinds@[j]) {
            let v = plan_value(c, p.kinds@[j], p.as_bytes, cell_of(c, row), order)->Ok_0;
            lemma_cell_value_width(c, cell_of(c, row), p.kinds@[j], order);
            assert(v.len() == plan_width(c, p.kinds@[j], p.as_bytes));
            let from = base + places[j].offset;
            assert(v =~= s.out.subrange(from, from + v.len()));
            assert forall|i: int| 0 <= i < k implies #[trigger] field_holds(
                p,
                places,
                base,
                row,
                order,
                s.out,
                i,
            ) by {
                if i < j && field_filled(cols[i], p.kinds@[i]) {
                    assert(field_holds(p, places, base, row, order, prev.out, i));
                    let w = plan_width(cols[i], p.kinds@[i], p.as_bytes) as int;
                    let at = base + places[i].offset;
                    assert(s.out.subrange(at, at + w) =~= prev.out.subrange(at, at + w));
                }
            }
        } else {
            assert(s.out == prev.out);
            assert forall|i: int| 0 <= i < k implies #[trigger] field_holds(
                p,
                places,
                base,
                row,
                order,
                s.out,
                i,
            ) by {
                if i < j {
                    assert(field_holds(p, places, base, row, order, prev.out, i));
                }
            }
        }
    }
}

/// What a read gives: where the rows of a plan are read without an error, every
/// field of every record holds the value of its column in the row that the
/// record stands for. This is so whatever the order in which the rows come.
pub proof fn law_read_fills_records(
    p: ReadPlan,
    places: Seq<FieldPlace>,
    itemsize: int,
    row_width: int,
    rows: Seq<Seq<u8>>,
    pairs: Seq<(i64, usize)>,
    order: ByteOrder,
    st: RowState,
)
    requires
        plan_fits(p, row_width),
        places_fit(p, places, itemsize),
        places_apart(p, places),
        rows.len() <= pairs.len(),
        forall|t: int| 0 <= t < rows.len() ==> (#[trigger] rows[t]).len() == row_width,
        forall|t: int|
            0 <= t < rows.len() ==> (#[trigger] pairs[t]).1 * itemsize + itemsize <= st.out.len(),
        forall|t: int, u: int|
            0 <= t < u < rows.len() ==> (#[trigger] pairs[t]).1 != (#[trigger] pairs[u]).1,
        itemsize >= 0,
        rows_state(p, places, itemsize, rows, pairs, order, st) is Ok,
    ensures
        ({
            let s = rows_state(p, places, itemsize, rows, pairs, order, st)->Ok_0;
            &&& s.out.len() == st.out.len()
            &&& forall|t: int, i: int|
                0 <= t < rows.len() && 0 <= i < p.columns@.len() ==> #[trigger] field_holds(
                    p,
                    places,
                    pairs[t].1 * itemsize,
                    rows[t],
                    order,
                    s.out,
                    i,
                )
        }),
    decreases rows.len(),
{
    if rows.len() > 0 {
        let n = rows.len() - 1;
        let before = rows.drop_last();
        assert(forall|t: int| 0 <= t < n ==> before[t] == rows[t]);
        law_read_fills_records(p, places, itemsize, row_width, before, pairs, order, st);
        let prev = rows_state(p, places, itemsize, before, pairs, order, st)->Ok_0;
        let s = rows_state(p, places, itemsize, rows, pairs, order, st)->Ok_0;
        let base = pairs[n].1 * itemsize;
        vstd::arithmetic::mul::lemma_mul_nonnegative(pairs[n].1 as int, itemsize);
        lemma_row_fills(
            p,
            places,
            itemsize,
            base,
            pairs[n].1,
            rows[n],
            order,
            prev,
            p.columns@.len(),
        );
        assert forall|t: int, i: int|
            0 <= t < rows.len() && 0 <= i < p.columns@.len() implies #[trigger] field_holds(
            p,
            places,
            pairs[t].1 * itemsize,
            rows[t],
            order,
            s.out,
            i,
        ) by {
            if t < n {
                let at = pairs[t].1 * itemsize;
                assert(field_holds(p, places, at, before[t], order, prev.out, i));
                let c = views(p.columns@)[i];
                if field_filled(c, p.kinds@[i]) {
                    let w = plan_width(c, p.kinds@[i], p.as_bytes) as int;
                    let from = at + places[i].offset;
                    lemma_records_apart(pairs[t].1 as int, pairs[n].1 as int, itemsize);
                    vstd::arithmetic::mul::lemma_mul_nonnegative(pairs[t].1 as int, itemsize);
                    assert(places[i].offset + w <= itemsize);
                    assert(s.out.subrange(from, from + w) =~= prev.out.subrange(from, from + w));
                }
            }
        }
    }
}

/// A read gives the rows in the order that was asked for: record `j` holds the
/// values of the row that stands at place `j` of the order.
pub proof fn law_read_in_order(
    p: ReadPlan,
    places: Seq<FieldPlace>,
    itemsize: int,
    row_width: int,
    table: Seq<Seq<u8>>,
    asked: Seq<usize>,
    order: ByteOrder,
    st: RowState,
)
    requires
        plan_fits(p, row_width),
        places_fit(p, places, itemsize),
        places_apart(p, places),
        itemsize >= 0,
        runs_hold(p.runs@, asked),
        asked.no_duplicates(),
        asked.len() <= usize::MAX,
        table.len() <= i64::MAX,
        forall|j: int| 0 <= j < asked.len() ==> asked[j] < table.len(),
        forall|t: int| 0 <= t < table.len() ==> (#[trigger] table[t]).len() == row_width,
        st.out.len() == asked.len() * itemsize,
        rows_state(
            p,
            places,
            itemsize,
            rows_of(table, all_pairs(p.runs@)),
            all_pairs(p.runs@),
            order,
            st,
        ) is Ok,
    ensures
        ({
            let s = rows_state(
                p,
                places,
                itemsize,
                rows_of(table, all_pairs(p.runs@)),
                all_pairs(p.runs@),
                order,
                st,
            )->Ok_0;
            forall|j: int, i: int|
                0 <= j < asked.len() && 0 <= i < p.columns@.len() ==> #[trigger] field_holds(
                    p,
                    places,
                    j * itemsize,
                    table[asked[j] as int],
                    order,
                    s.out,
                    i,
                )
        }),
{
    let pairs = all_pairs(p.runs@);
    let rows = rows_of(table, pairs);
    lemma_runs_places(p.runs@, asked);
    lemma_runs_distinct(p.runs@, asked);
    assert forall|t: int| 0 <= t < rows.len() implies (#[trigger] pairs[t]).1 * itemsize + itemsize
        <= st.out.len() by {
        lemma_unit_below(pairs[t].1 as int, asked.len() as int, itemsize);
    }
    assert forall|t: int| 0 <= t < rows.len() implies (#[trigger] rows[t]).len() == row_width by {
        assert(asked[pairs[t].1 as int] == pairs[t].0);
        assert(rows[t] == table[pairs[t].0 as int]);
    }
    law_read_fills_records(p, places, itemsize, row_width, rows, pairs, order, st);
    let s = rows_state(p, places, itemsize, rows, pairs, order, st)->Ok_0;
    assert forall|j: int, i: int|
        0 <= j < asked.len() && 0 <= i < p.columns@.len() implies #[trigger] field_holds(
        p,
        places,
        j * itemsize,
        table[asked[j] as int],
        order,
        s.out,
        i,
    ) by {
        assert(has_place(pairs, j));
        let t = choose|t: int| 0 <= t < pairs.len() && (#[trigger] pairs[t]).1 == j;
        assert(asked[pairs[t].1 as int] == pairs[t].0);
        assert(field_holds(p, places, pairs[t].1 * itemsize, rows[t], order, s.out, i));
    }
}

/// The rows of a table that the pairs name.
pub open spec fn rows_of(table: Seq<Seq<u8>>, pairs: Seq<(i64, usize)>) -> Seq<Seq<u8>> {
    Seq::new(pairs.len(), |t: int| table[pairs[t].0 as int])
}

/// Two records do not overlap.
proof fn lemma_records_apart(a: int, b: int, w: int)
    requires
        0 <= a,
        0 <= b,
        a != b,
        0 <= w,
    ensures
        a * w + w <= b * w || b * w + w <= a * w,
{
    if a < b {
        lemma_unit_below(a, b, w);
    } else {
        lemma_unit_below(b, a, w);
    }
}

// Pieces -------------------------------------------------------------------

/// The bytes of a piece of the rows of a table.
pub open spec fn piece_of(data: Seq<u8>, row_width: int, c: Chunk) -> Seq<u8> {
    data.subrange(c.start * row_width, (c.start + c.rows) * row_width)
}

/// What the pieces of the rows of a table make of the records and descriptors,
/// one after the other.
pub open spec fn pieces_state(
    p: ReadPlan,
    places: Seq<FieldPlace>,
    itemsize: int,
    row_width: int,
    data: Seq<u8>,
    chunks: Seq<Chunk>,
    order: ByteOrder,
    st: RowState,
) -> Result<RowState, ReadError>
    decreases chunks.len(),
{
    if chunks.len() == 0 {
        Ok(st)
    } else {
        let c = chunks.last();
        match pieces_state(p, places, itemsize, row_width, data, chunks.drop_last(), order, st) {
            Err(e) => Err(e),
            Ok(s) => rows_state(
                p,
                places,
                itemsize,
                row_units(piece_of(data, row_width, c), row_width, c.rows as nat),
                chunk_pairs(c, p.runs@),
                order,
                s,
            ),
        }
    }
}

proof fn lemma_rows_join(
    p: ReadPlan,
    places: Seq<FieldPlace>,
    itemsize: int,
    a: Seq<Seq<u8>>,
    b: Seq<Seq<u8>>,
    pairs: Seq<(i64, usize)>,
    more: Seq<(i64, usize)>,
    order: ByteOrder,
    st: RowState,
)
    requires
        forall|t: int| 0 <= t < b.len() ==> #[trigger] more[t] == pairs[a.len() + t],
    ensures
        rows_state(p, places, itemsize, a + b, pairs, order, st) == match rows_state(
            p,
            places,
            itemsize,
            a,
            pairs,
            order,
            st,
        ) {
            Err(e) => Err(e),
            Ok(s) => rows_state(p, places, itemsize, b, more, order, s),
        },
    decreases b.len(),
{
    if b.len() == 0 {
        assert(a + b =~= a);
    } else {
        assert((a + b).drop_last() =~= a + b.drop_last());
        assert(more[b.len() - 1] == pairs[a.len() + (b.len() - 1)]);
        lemma_rows_join(p, places, itemsize, a, b.drop_last(), pairs, more, order, st);
    }
}

/// To read the rows of a table piece by piece is to read them all.
pub proof fn law_read_in_pieces(
    p: ReadPlan,
    places: Seq<FieldPlace>,
    itemsize: int,
    row_width: int,
    data: Seq<u8>,
    nrows: nat,
    chunks: Seq<Chunk>,
    per: usize,
    order: ByteOrder,
    st: RowState,
)
    requires
        0 <= row_width,
        data.len() == nrows * row_width,
        nrows <= i64::MAX,
        chunks_cover(chunks, p.runs@, per),
        forall|k: int|
            0 <= k < p.runs@.len() ==> (#[trigger] p.runs@[k]).start + p.runs@[k].len <= nrows,
    ensures
        pieces_state(p, places, itemsize, row_width, data, chunks, order, st) == rows_state(
            p,
            places,
            itemsize,
            rows_of(row_units(data, row_width, nrows), all_pairs(p.runs@)),
            all_pairs(p.runs@),
            order,
            st,
        ),
{
    let n = chunks.len() as int;
    let all = all_pairs(p.runs@);
    let table = row_units(data, row_width, nrows);
    lemma_pieces(p, places, itemsize, row_width, data, nrows, chunks, per, n, order, st);
    assert(chunks.take(n) =~= chunks);
    assert(rows_of(table, all).take(all.len() as int) =~= rows_of(table, all));
}

/// The rows of a piece are those rows of the table that it names.
proof fn lemma_piece_rows(
    row_width: int,
    data: Seq<u8>,
    nrows: nat,
    c: Chunk,
    runs: Seq<RunPlan>,
)
    requires
        0 <= row_width,
        data.len() == nrows * row_width,
        nrows <= i64::MAX,
        chunk_in(c, runs),
        runs[c.run as int].start + runs[c.run as int].len <= nrows,
    ensures
        row_units(piece_of(data, row_width, c), row_width, c.rows as nat) == rows_of(
            row_units(data, row_width, nrows),
            chunk_pairs(c, runs),
        ),
{
    let table = row_units(data, row_width, nrows);
    let more = chunk_pairs(c, runs);
    let piece = row_units(piece_of(data, row_width, c), row_width, c.rows as nat);
    let a = c.start as int;
    let n = c.rows as int;
    assert forall|t: int| 0 <= t < n implies piece[t] == rows_of(table, more)[t] by {
        assert(more[t].0 == a + t);
        lemma_unit_below(t, n, row_width);
        lemma_unit_below(a + t, nrows as int, row_width);
        assert((a + t) * row_width == a * row_width + t * row_width && (a + n) * row_width == a
            * row_width + n * row_width && (a + n) * row_width <= nrows * row_width && 0 <= a
            * row_width) by (nonlinear_arith)
            requires
                0 <= row_width,
                0 <= t,
                0 <= a,
                a + n <= nrows,
        ;
        assert(piece[t] =~= table[a + t]);
    }
    assert(piece =~= rows_of(table, more));
}

proof fn lemma_pieces(
    p: ReadPlan,
    places: Seq<FieldPlace>,
    itemsize: int,
    row_width: int,
    data: Seq<u8>,
    nrows: nat,
    chunks: Seq<Chunk>,
    per: usize,
    k: int,
    order: ByteOrder,
    st: RowState,
)
    requires
        0 <= row_width,
        0 <= k <= chunks.len(),
        data.len() == nrows * row_width,
        nrows <= i64::MAX,
        chunks_cover(chunks, p.runs@, per),
        forall|k: int|
            0 <= k < p.runs@.len() ==> (#[trigger] p.runs@[k]).start + p.runs@[k].len <= nrows,
    ensures
        0 <= chunk_rows(chunks, k) <= all_pairs(p.runs@).len(),
        pieces_state(p, places, itemsize, row_width, data, chunks.take(k), order, st)
            == rows_state(
            p,
            places,
            itemsize,
            rows_of(row_units(data, row_width, nrows), all_pairs(p.runs@)).take(
                chunk_rows(chunks, k),
            ),
            all_pairs(p.runs@),
            order,
            st,
        ),
    decreases k,
{
    let all = all_pairs(p.runs@);
    let table = row_units(data, row_width, nrows);
    let rows = rows_of(table, all);
    if k == 0 {
        assert(rows.take(0) =~= Seq::empty());
        assert(chunks.take(0) =~= Seq::empty());
    } else {
        lemma_pieces(p, places, itemsize, row_width, data, nrows, chunks, per, k - 1, order, st);
        let c = chunks[k - 1];
        let m = chunk_rows(chunks, k - 1);
        assert(chunks.take(k).drop_last() =~= chunks.take(k - 1));
        assert(c.first == m);
        law_chunk_pairs(c, p.runs@);
        let more = chunk_pairs(c, p.runs@);
        let piece = row_units(piece_of(data, row_width, c), row_width, c.rows as nat);
        lemma_piece_rows(row_width, data, nrows, c, p.runs@);
        assert(more =~= all.subrange(m, m + c.rows));
        assert(piece =~= rows.subrange(m, m + c.rows)) by {
            assert forall|t: int| 0 <= t < c.rows implies piece[t] == rows[m + t] by {
                assert(more[t] == all[m + t]);
            }
        }
        assert forall|t: int| 0 <= t < piece.len() implies #[trigger] more[t] == all[rows.take(
            m,
        ).len() + t] by {
            assert(all.subrange(m, m + c.rows)[t] == all[m + t]);
        }
        assert(rows.take(m + c.rows) =~= rows.take(m) + piece);
        lemma_rows_join(p, places, itemsize, rows.take(m), piece, all, more, order, st);
    }
}

} // verus!
