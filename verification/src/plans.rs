//! Whole operations on a table: what is checked, what is written and where.

use vstd::prelude::*;

use crate::assign::{
    HeapCellWrite, HeapColumnWrite, heap_cell_count, heap_column_error, is_heap_column,
    plan_set_heap_cell, plan_set_heap_column,
};
use crate::columns::{
    Column, ColumnView, Descriptor, Letter, column_ok, columns_ok, opt_text, views,
};
use crate::edit::{
    NewColumn, NewHeapColumn, Target, check_insert, insert_place, longest_cell, most_elements,
    name_uppers, new_column, new_heap_column, opt_key_upper, plan_new_column, plan_new_heap_column,
    pre_width, synth_column, width_before,
};
use crate::error::{AssignError, EditError, WriteError};
use crate::heap::descriptor_for;
use crate::heapwrite::{
    VlaWrite, build_vla_heap_buf, cells_valid, plan_vla_rows, plan_vla_write, rows_given_error,
    rows_heap, vla_planned, vla_rows, vla_write,
};
use crate::input::{ArrayInfo, first_axis};
use crate::keywords::{count_of, heap_base};
use crate::layout::{
    AppendLayout, HeapLayout, OverwriteLayout, append_layout, fits, heap_layout, overwrite_layout,
    plan_append, plan_heap_growth, plan_overwrite,
};
use crate::repack::custom_heap;
use crate::strips::cell_file_offset;
use crate::text::uppercase;
use crate::vla::{
    VarInput, VlaCellPlan, cells_ok, count_at, plans_hold, rows_bytes, var_bytes, var_input_ok,
};

verus! {

/// Where a table stands in its file, and how large it is.
#[derive(Clone, Copy, PartialEq, Eq, Structural, Debug)]
pub struct TablePlace {
    pub data_offset: u64,
    pub file_len: u64,
    pub nrows: usize,
    pub row_width: usize,
    /// The bytes of the heap.
    pub pcount: u64,
}

/// The bytes of the rows.
pub open spec fn main_bytes(t: TablePlace) -> int {
    t.nrows * t.row_width
}

// Writing the whole table --------------------------------------------------

/// A column of bits in the heap, whose header says how many its longest cell
/// has: its number, which counts from 1, and the bits.
#[derive(Clone, Copy, PartialEq, Eq, Structural, Debug)]
pub struct BitHint {
    pub number: usize,
    pub kind: Descriptor,
    pub bits: usize,
}

/// The hints for the first `k` columns.
pub open spec fn bit_hints(cols: Seq<ColumnView>, plans: Seq<Vec<VlaCellPlan>>, k: nat) -> Seq<
    BitHint,
>
    decreases k,
{
    if k == 0 {
        Seq::empty()
    } else {
        let i = k - 1;
        let s = bit_hints(cols, plans, (k - 1) as nat);
        match cols[i].var_kind {
            Some(kind) => if cols[i].letter is X {
                s.push(
                    BitHint { number: k as usize, kind, bits: most_elements(plans[i]@) },
                )
            } else {
                s
            },
            None => s,
        }
    }
}

/// The hints for the columns of bits in the heap.
pub fn hints_for(columns: &[Column], plans: &Vec<Vec<VlaCellPlan>>) -> (r: Vec<BitHint>)
    requires
        plans@.len() == columns@.len(),
    ensures
        r@ == bit_hints(views(columns@), plans@, columns@.len()),
{
    let n: usize = columns.len();
    let ghost cols = views(columns@);
    let mut out: Vec<BitHint> = Vec::new();
    let mut i: usize = 0;
    while i < n
        invariant
            i <= n == columns@.len() == cols.len() == plans@.len(),
            cols == views(columns@),
            out@ == bit_hints(cols, plans@, i as nat),
        decreases n - i,
    {
        assert(cols[i as int] == columns@[i as int]@);
        match columns[i].var_kind {
            Some(kind) => match columns[i].letter {
                Letter::X => {
                    out.push(BitHint { number: i + 1, kind, bits: longest_cell(&plans[i]) });
                },
                _ => {},
            },
            None => {},
        }
        i = i + 1;
    }
    out
}

/// A write of the whole table: where the cells come from, what the heap is, and
/// where they go.
#[derive(Debug)]
pub struct OverwritePlan {
    pub write: VlaWrite,
    pub heap: Vec<u8>,
    pub layout: OverwriteLayout,
    pub hints: Vec<BitHint>,
}

/// Whether the data of a table fit where it stands, with a heap of `heap` bytes.
pub open spec fn place_fits(t: TablePlace, heap: int) -> bool {
    fits(t.data_offset as int, main_bytes(t) + t.pcount) && fits(
        t.data_offset as int,
        main_bytes(t) + heap,
    )
}

/// Plans to write the whole table anew, with a new heap.
pub fn write_vla_aware(
    columns: &[Column],
    arrays: &Vec<ArrayInfo>,
    cells: &Vec<Vec<VarInput>>,
    t: TablePlace,
) -> (r: Result<OverwritePlan, WriteError>)
    requires
        forall|i: int| 0 <= i < columns@.len() ==> column_ok(#[trigger] views(columns@)[i]),
        arrays@.len() == columns@.len(),
        rows_given_error(arrays@, t.nrows, columns@.len()) is None ==> cells_ok(
            views(columns@),
            cells@,
            t.nrows as int,
        ),
    ensures
        ({
            let cols = views(columns@);
            let heap = rows_heap(cols, cells@, t.nrows as int);
            match vla_write(cols, arrays@, cells@, t.nrows, 0) {
                Err(e) => r == Err::<OverwritePlan, WriteError>(e),
                Ok(s) => if !place_fits(t, heap.len() as int) {
                    r == Err::<OverwritePlan, WriteError>(WriteError::TooLarge)
                } else {
                    r matches Ok(p) && vla_planned(
                        p.write,
                        s,
                        cols,
                        arrays@,
                        cells@,
                        t.nrows,
                        0,
                    ) && cells_valid(cols, cells@, t.nrows as int) && p.heap@ == heap && p.layout
                        == overwrite_layout(
                        t.data_offset as int,
                        main_bytes(t),
                        t.pcount as int,
                        heap.len() as int,
                        t.file_len as int,
                    ) && p.hints@ == bit_hints(cols, p.write.plans@, cols.len())
                },
            }
        }),
{
    match plan_vla_write(columns, arrays, cells, t.nrows, 0) {
        Err(e) => Err(e),
        Ok(write) => {
            let heap: Vec<u8> = planned_heap(columns, cells, t.nrows, &write, 0, arrays);
            match plan_overwrite(
                t.data_offset,
                t.nrows,
                t.row_width,
                t.pcount,
                heap.len() as u64,
                t.file_len,
            ) {
                Err(e) => Err(e),
                Ok(layout) => {
                    let hints: Vec<BitHint> = hints_for(columns, &write.plans);
                    Ok(OverwritePlan { write, heap, layout, hints })
                },
            }
        },
    }
}

/// The bytes of the heap that a plan is about.
fn planned_heap(
    columns: &[Column],
    cells: &Vec<Vec<VarInput>>,
    nrows: usize,
    w: &VlaWrite,
    start: usize,
    arrays: &Vec<ArrayInfo>,
) -> (r: Vec<u8>)
    requires
        cells_ok(views(columns@), cells@, nrows as int),
        vla_planned(*w, w.sources@, views(columns@), arrays@, cells@, nrows, start),
    ensures
        r@ == rows_heap(views(columns@), cells@, nrows as int),
        r@.len() == rows_bytes(views(columns@), cells@, nrows as int),
        cells_valid(views(columns@), cells@, nrows as int),
{
    proof {
        let cols = views(columns@);
        assert forall|i: int, q: int|
            0 <= i < columns@.len() && 0 <= q < nrows && columns@[i].var_kind is Some implies (
        #[trigger] count_at(cols, cells@, i, q)) is Ok by {
            assert(cols[i] == columns@[i]@);
            let p = w.plans@[i];
            assert(plans_hold(cols, cells@, start as int, p@, i, nrows as int));
            assert(count_at(cols, cells@, i, q) == Ok::<usize, crate::error::VarError>(
                p@[q].nelements,
            ));
        }
    }
    build_vla_heap_buf(columns, cells, nrows)
}

// Adding rows --------------------------------------------------------------

/// Rows that are added: where their cells come from, what is added to the heap,
/// and where they go.
#[derive(Debug)]
pub struct AppendPlan {
    pub write: VlaWrite,
    pub heap: Vec<u8>,
    pub layout: AppendLayout,
    /// The rows of the table with the new ones.
    pub nrows: usize,
    /// The bytes of the heap with the new ones.
    pub pcount: u64,
}

/// Whether `added` rows and `heap` bytes of heap fit behind those of a table.
pub open spec fn append_fits(t: TablePlace, added: usize, heap: int) -> bool {
    t.nrows + added <= usize::MAX && fits(
        t.data_offset as int,
        main_bytes(t) + added * t.row_width + t.pcount + heap,
    )
}

/// Plans to add rows, some of whose cells are in the heap.
pub fn append_vla_aware(
    columns: &[Column],
    arrays: &Vec<ArrayInfo>,
    cells: &Vec<Vec<VarInput>>,
    t: TablePlace,
    added: usize,
) -> (r: Result<AppendPlan, WriteError>)
    requires
        forall|i: int| 0 <= i < columns@.len() ==> column_ok(#[trigger] views(columns@)[i]),
        arrays@.len() == columns@.len(),
        rows_given_error(arrays@, added, columns@.len()) is None ==> cells_ok(
            views(columns@),
            cells@,
            added as int,
        ),
    ensures
        ({
            let cols = views(columns@);
            let heap = rows_heap(cols, cells@, added as int);
            if t.pcount > usize::MAX {
                r == Err::<AppendPlan, WriteError>(WriteError::TooLarge)
            } else {
                match vla_write(cols, arrays@, cells@, added, t.pcount as usize) {
                    Err(e) => r == Err::<AppendPlan, WriteError>(e),
                    Ok(s) => if !append_fits(t, added, heap.len() as int) {
                        r == Err::<AppendPlan, WriteError>(WriteError::TooLarge)
                    } else {
                        r matches Ok(p) && vla_planned(
                            p.write,
                            s,
                            cols,
                            arrays@,
                            cells@,
                            added,
                            t.pcount as usize,
                        ) && cells_valid(cols, cells@, added as int) && p.heap@ == heap && p.layout
                            == append_layout(
                            t.data_offset as int,
                            main_bytes(t),
                            added * t.row_width,
                            t.pcount as int,
                            t.pcount + heap.len(),
                            t.file_len as int,
                        ) && p.nrows == t.nrows + added && p.pcount == t.pcount + heap.len()
                    },
                }
            }
        }),
{
    if t.pcount > usize::MAX as u64 {
        return Err(WriteError::TooLarge);
    }
    let start: usize = t.pcount as usize;
    match plan_vla_write(columns, arrays, cells, added, start) {
        Err(e) => Err(e),
        Ok(write) => {
            let heap: Vec<u8> = planned_heap(columns, cells, added, &write, start, arrays);
            let pcount: u64 = write.heap_end as u64;
            assert(pcount == t.pcount + heap@.len());
            let nrows: usize = match t.nrows.checked_add(added) {
                Some(n) => n,
                None => {
                    return Err(WriteError::TooLarge);
                },
            };
            match plan_append(
                t.data_offset,
                t.nrows,
                added,
                t.row_width,
                t.pcount,
                pcount,
                t.file_len,
            ) {
                Err(e) => Err(e),
                Ok(layout) => Ok(AppendPlan { write, heap, layout, nrows, pcount }),
            }
        },
    }
}

/// Where rows go that are added to a table without a heap, and how many rows it
/// then has.
pub fn append_fixed_only(t: TablePlace, added: usize) -> (r: Result<
    (AppendLayout, usize),
    WriteError,
>)
    ensures
        if t.nrows + added > usize::MAX || !fits(
            t.data_offset as int,
            main_bytes(t) + added * t.row_width,
        ) {
            r == Err::<(AppendLayout, usize), WriteError>(WriteError::TooLarge)
        } else {
            r matches Ok((l, n)) && n == t.nrows + added && l == append_layout(
                t.data_offset as int,
                main_bytes(t),
                added * t.row_width,
                0,
                0,
                t.file_len as int,
            )
        },
{
    let nrows: usize = match t.nrows.checked_add(added) {
        Some(n) => n,
        None => {
            return Err(WriteError::TooLarge);
        },
    };
    match plan_append(t.data_offset, t.nrows, added, t.row_width, 0, 0, t.file_len) {
        Err(e) => Err(e),
        Ok(layout) => Ok((layout, nrows)),
    }
}

/// What a header says of the start of the heap after rows have been added: the
/// heap moves up by their bytes. A header that says nothing of it, with 0 or
/// less, says nothing still.
pub open spec fn theap_after(theap: i64, added: usize, row_width: usize) -> int {
    if theap > 0 {
        theap + added * row_width
    } else {
        theap as int
    }
}

/// What the header is to say of the start of the heap after rows have been
/// added; nothing where it says nothing of it.
pub fn theap_after_append(theap: i64, added: usize, row_width: usize) -> (r: Result<
    Option<i64>,
    WriteError,
>)
    ensures
        match r {
            Ok(Some(v)) => theap > 0 && v == theap_after(theap, added, row_width),
            Ok(None) => theap <= 0,
            Err(e) => e == WriteError::TooLarge && theap > 0 && theap_after(
                theap,
                added,
                row_width,
            ) > i64::MAX,
        },
{
    if theap <= 0 {
        return Ok(None);
    }
    match (added as u64).checked_mul(row_width as u64) {
        None => Err(WriteError::TooLarge),
        Some(more) => match more.checked_add(theap as u64) {
            None => Err(WriteError::TooLarge),
            Some(v) => if v > i64::MAX as u64 {
                Err(WriteError::TooLarge)
            } else {
                Ok(Some(v as i64))
            },
        },
    }
}

/// After rows have been added a reader looks for the heap where it has moved,
/// whether or not the header says where that is.
pub proof fn law_append_moves_heap_base(
    theap: i64,
    nrows: usize,
    added: usize,
    row_width: usize,
)
    requires
        custom_heap(theap, nrows, row_width) is None,
        row_width <= i64::MAX,
        nrows + added <= i64::MAX,
        (nrows + added) * row_width <= i64::MAX,
    ensures
        heap_base(
            Some(row_width as i64),
            Some((nrows + added) as i64),
            Some(theap_after(theap, added, row_width) as i64),
        ) == nrows * row_width + added * row_width,
{
    let n = nrows as int;
    let a = added as int;
    let w = row_width as int;
    assert((n + a) * w == n * w + a * w && 0 <= n * w && 0 <= a * w && w * (n + a) == (n + a) * w)
        by (nonlinear_arith)
        requires
            0 <= n,
            0 <= a,
            0 <= w,
    ;
    let x = count_of(Some(row_width as i64)) as int;
    let y = count_of(Some((nrows + added) as i64)) as int;
    assert(x == w);
    assert(y == n + a);
}

// Overwriting --------------------------------------------------------------

/// Rows that are overwritten, some of whose cells are in the heap: where their
/// cells come from, what is added to the heap, and where it goes.
#[derive(Debug)]
pub struct RowsPlan {
    pub write: VlaWrite,
    pub heap: Vec<u8>,
    pub layout: HeapLayout,
    /// The bytes of the heap with the new cells.
    pub pcount: u64,
}

/// Plans to overwrite `count` rows, some of whose cells are in the heap. The
/// new cells go behind those that it has, which stay.
pub fn setitem_rows_vla_aware_inner(
    columns: &[Column],
    arrays: &Vec<ArrayInfo>,
    cells: &Vec<Vec<VarInput>>,
    count: usize,
    t: TablePlace,
) -> (r: Result<RowsPlan, WriteError>)
    requires
        forall|i: int| 0 <= i < columns@.len() ==> column_ok(#[trigger] views(columns@)[i]),
        arrays@.len() == columns@.len(),
        cells_ok(views(columns@), cells@, count as int),
    ensures
        ({
            let cols = views(columns@);
            let heap = rows_heap(cols, cells@, count as int);
            if t.pcount > usize::MAX {
                r == Err::<RowsPlan, WriteError>(WriteError::TooLarge)
            } else {
                match vla_rows(cols, arrays@, cells@, count, t.pcount as usize) {
                    Err(e) => r == Err::<RowsPlan, WriteError>(e),
                    Ok(s) => if !fits(
                        t.data_offset as int,
                        main_bytes(t) + t.pcount + heap.len(),
                    ) {
                        r == Err::<RowsPlan, WriteError>(WriteError::TooLarge)
                    } else {
                        r matches Ok(p) && vla_planned(
                            p.write,
                            s,
                            cols,
                            arrays@,
                            cells@,
                            count,
                            t.pcount as usize,
                        ) && cells_valid(cols, cells@, count as int) && p.heap@ == heap && p.layout
                            == heap_layout(
                            t.data_offset as int,
                            main_bytes(t),
                            t.pcount as int,
                            t.pcount + heap.len(),
                            t.file_len as int,
                        ) && p.pcount == t.pcount + heap.len()
                    },
                }
            }
        }),
{
    if t.pcount > usize::MAX as u64 {
        return Err(WriteError::TooLarge);
    }
    let start: usize = t.pcount as usize;
    match plan_vla_rows(columns, arrays, cells, count, start) {
        Err(e) => Err(e),
        Ok(write) => {
            let heap: Vec<u8> = planned_heap(columns, cells, count, &write, start, arrays);
            let pcount: u64 = write.heap_end as u64;
            match plan_heap_growth(
                t.data_offset,
                t.nrows,
                t.row_width,
                t.pcount,
                pcount,
                t.file_len,
            ) {
                Err(e) => Err(e),
                Ok(layout) => Ok(RowsPlan { write, heap, layout, pcount }),
            }
        },
    }
}

/// A column with cells in the heap that is overwritten, and where what is added
/// to the heap goes.
#[derive(Debug)]
pub struct HeapColumnPlan {
    pub write: HeapColumnWrite,
    pub layout: HeapLayout,
}

/// Plans to overwrite a column with cells in the heap. `cells` has one list: the
/// cells.
pub fn setitem_single_column_vla(
    col: Column,
    kind: Descriptor,
    a: &ArrayInfo,
    cells: &Vec<Vec<VarInput>>,
    t: TablePlace,
) -> (r: Result<HeapColumnPlan, AssignError>)
    requires
        col.var_kind == Some(kind),
        cells@.len() == 1,
        cells@[0]@.len() == first_axis(*a),
        forall|k: int| 0 <= k < cells@[0]@.len() ==> var_input_ok(#[trigger] cells@[0]@[k]),
    ensures
        ({
            let heap = rows_heap(seq![col@], cells@, t.nrows as int);
            match heap_column_error(col@, *a, cells@, t.nrows, t.pcount) {
                Some(e) => r == Err::<HeapColumnPlan, AssignError>(e),
                None => if !fits(t.data_offset as int, main_bytes(t) + t.pcount + heap.len()) {
                    r == Err::<HeapColumnPlan, AssignError>(AssignError::TooLarge)
                } else {
                    r matches Ok(p) && is_heap_column(
                        p.write,
                        col@,
                        kind,
                        cells@,
                        t.nrows,
                        t.pcount,
                    ) && p.layout == heap_layout(
                        t.data_offset as int,
                        main_bytes(t),
                        t.pcount as int,
                        t.pcount + heap.len(),
                        t.file_len as int,
                    )
                },
            }
        }),
{
    match plan_set_heap_column(col, kind, a, cells, t.nrows, t.pcount) {
        Err(e) => Err(e),
        Ok(write) => match plan_heap_growth(
            t.data_offset,
            t.nrows,
            t.row_width,
            t.pcount,
            write.heap_end as u64,
            t.file_len,
        ) {
            Err(_) => Err(AssignError::TooLarge),
            Ok(layout) => Ok(HeapColumnPlan { write, layout }),
        },
    }
}

/// A cell in the heap that is overwritten: where what is added to the heap goes,
/// and where its descriptor stands in the file.
#[derive(Debug)]
pub struct HeapCellPlan {
    pub write: HeapCellWrite,
    pub layout: HeapLayout,
    pub descriptor_at: u64,
}

/// Plans to overwrite the cell of a row in the heap.
pub fn setitem_cell_vla(
    col: &Column,
    kind: Descriptor,
    row: usize,
    c: &VarInput,
    t: TablePlace,
) -> (r: Result<HeapCellPlan, AssignError>)
    requires
        var_input_ok(*c),
        row < t.nrows,
        col.byte_offset + col.byte_width <= t.row_width,
    ensures
        match heap_cell_count(*c, col.letter, t.pcount) {
            Err(e) => r == Err::<HeapCellPlan, AssignError>(e),
            Ok(n) => if !fits(
                t.data_offset as int,
                main_bytes(t) + t.pcount + crate::columns::cell_bytes(col.letter, n as nat),
            ) {
                r == Err::<HeapCellPlan, AssignError>(AssignError::TooLarge)
            } else {
                r matches Ok(p) && p.write.bytes@ == var_bytes(*c, col.letter)
                    && p.write.descriptor@ == descriptor_for(kind, n as nat, t.pcount as nat)
                    && p.write.heap_end == t.pcount + p.write.bytes@.len() && p.layout
                    == heap_layout(
                    t.data_offset as int,
                    main_bytes(t),
                    t.pcount as int,
                    t.pcount + p.write.bytes@.len(),
                    t.file_len as int,
                ) && p.descriptor_at == t.data_offset + row * t.row_width + col.byte_offset
            },
        },
{
    match plan_set_heap_cell(col, kind, c, t.pcount) {
        Err(e) => Err(e),
        Ok(write) => {
            match plan_heap_growth(
                t.data_offset,
                t.nrows,
                t.row_width,
                t.pcount,
                write.heap_end,
                t.file_len,
            ) {
                Err(_) => Err(AssignError::TooLarge),
                Ok(layout) => {
                    proof {
                        crate::bytes::lemma_unit_below(
                            row as int,
                            t.nrows as int,
                            t.row_width as int,
                        );
                        crate::layout::law_padded(main_bytes(t) + write.heap_end);
                    }
                    match cell_file_offset(t.data_offset, row, t.row_width, col.byte_offset) {
                        Some(descriptor_at) => Ok(HeapCellPlan { write, layout, descriptor_at }),
                        None => Err(AssignError::TooLarge),
                    }
                },
            }
        },
    }
}

// Putting a column in ------------------------------------------------------

/// A column that is put in: where it goes, what comes before it in a row, and
/// the bytes of a row with it.
#[derive(Debug)]
pub struct InsertPlan {
    pub at: usize,
    pub pre: usize,
    pub row_width: usize,
    pub column: InsertColumn,
    /// The bits of the longest cell, which its TFORM tells, where its cells are
    /// bits in the heap.
    pub hint: Option<usize>,
}

/// What the TFORM of a column with cells in the heap tells of the longest one.
pub open spec fn insert_hint(letter: Letter, plans: Seq<VlaCellPlan>) -> Option<usize> {
    if letter is X {
        Some(most_elements(plans))
    } else {
        None
    }
}

/// What is put in: fixed-width values, or cells in the heap and their bytes.
#[derive(Debug)]
pub enum InsertColumn {
    Fixed(NewColumn),
    Heap { column: NewHeapColumn, bytes: Vec<u8> },
}

/// What a caller says of a new column.
#[derive(Debug)]
pub struct InsertRequest {
    pub name: String,
    pub target: Target,
    pub unit: Option<String>,
    /// What cells in the heap are made of.
    pub inner: Option<String>,
    /// The form of descriptors.
    pub format: Option<String>,
    /// Whether truth values are stored as bits.
    pub bits: bool,
}

/// Where a new column goes.
pub open spec fn request_place(
    q: InsertRequest,
    cols: Seq<ColumnView>,
    t: TablePlace,
    theap: i64,
) -> Result<int, EditError> {
    insert_place(
        name_uppers(cols),
        custom_heap(theap, t.nrows, t.row_width),
        q.name@,
        uppercase(q.name@),
        q.target,
        opt_key_upper(q.target.after),
        opt_key_upper(q.target.before),
    )
}

/// Plans to put a column in: its place is found first, and then what is given
/// for it is checked. `cells` has one list: the objects, where these are given.
pub fn insert_column_impl(
    q: &InsertRequest,
    columns: &[Column],
    a: &ArrayInfo,
    cells: &Vec<Vec<VarInput>>,
    t: TablePlace,
    theap: i64,
) -> (r: Result<InsertPlan, EditError>)
    requires
        columns_ok(views(columns@), t.row_width as int),
        a.kind == 'O' ==> cells@.len() == 1 && cells@[0]@.len() == first_axis(*a) && forall|k: int|
            0 <= k < cells@[0]@.len() ==> var_input_ok(#[trigger] cells@[0]@[k]),
    ensures
        match request_place(*q, views(columns@), t, theap) {
            Err(e) => r == Err::<InsertPlan, EditError>(e),
            Ok(at) => planned_insert(r, *q, views(columns@), *a, cells@, t, at),
        },
{
    match check_insert(columns, t.nrows, t.row_width, theap, q.name.as_str(), &q.target) {
        Err(e) => Err(e),
        Ok(at) => insert_at(q, columns, a, cells, t, at),
    }
}

/// Whether a result is that of putting in a column at a place.
pub open spec fn planned_insert(
    r: Result<InsertPlan, EditError>,
    q: InsertRequest,
    cols: Seq<ColumnView>,
    a: ArrayInfo,
    cells: Seq<Vec<VarInput>>,
    t: TablePlace,
    at: int,
) -> bool {
    if a.kind == 'O' {
        match new_heap_column(
            q.name@,
            a,
            cells,
            opt_text(q.unit),
            opt_text(q.inner),
            opt_text(q.format),
            q.bits,
            t.nrows,
            t.pcount,
        ) {
            Err(e) => r == Err::<InsertPlan, EditError>(e),
            Ok(c) => if t.row_width + c.byte_width > usize::MAX {
                r == Err::<InsertPlan, EditError>(EditError::TooLarge)
            } else {
                r matches Ok(p) && p.at == at && p.pre == pre_width(cols, at) && p.row_width
                    == t.row_width + c.byte_width && (p.column matches InsertColumn::Heap {
                    column,
                    bytes,
                } && column.column@ == c && c.var_kind == Some(column.kind) && p.hint
                    == insert_hint(c.letter, column.plans@) && ({
                    let synth = seq![synth_column(c)->0];
                    &&& column.heap_end == t.pcount + bytes@.len()
                    &&& plans_hold(
                        synth,
                        cells,
                        t.pcount as int,
                        column.plans@,
                        0,
                        t.nrows as int,
                    )
                    &&& bytes@ == rows_heap(synth, cells, t.nrows as int)
                }))
            },
        }
    } else {
        match new_column(
            q.name@,
            a,
            opt_text(q.unit),
            q.bits,
            q.inner is Some,
            q.format is Some,
            t.nrows,
        ) {
            Err(e) => r == Err::<InsertPlan, EditError>(e),
            Ok((c, transform, size)) => if t.row_width + c.byte_width > usize::MAX {
                r == Err::<InsertPlan, EditError>(EditError::TooLarge)
            } else {
                r matches Ok(p) && p.at == at && p.pre == pre_width(cols, at) && p.row_width
                    == t.row_width + c.byte_width && p.hint is None && (
                p.column matches InsertColumn::Fixed(n)
                    && n.column@ == c && n.transform == transform && n.size == size)
            },
        }
    }
}

/// Plans to put a column in at a place.
pub fn insert_at(
    q: &InsertRequest,
    columns: &[Column],
    a: &ArrayInfo,
    cells: &Vec<Vec<VarInput>>,
    t: TablePlace,
    at: usize,
) -> (r: Result<InsertPlan, EditError>)
    requires
        columns_ok(views(columns@), t.row_width as int),
        at <= columns@.len(),
        a.kind == 'O' ==> cells@.len() == 1 && cells@[0]@.len() == first_axis(*a) && forall|k: int|
            0 <= k < cells@[0]@.len() ==> var_input_ok(#[trigger] cells@[0]@[k]),
    ensures
        planned_insert(r, *q, views(columns@), *a, cells@, t, at as int),
{
    if a.kind == 'O' {
        return insert_vla_column_impl(q, columns, a, cells, t, at);
    }
    let n: NewColumn = match plan_new_column(
        q.name.as_str(),
        a,
        &q.unit,
        q.bits,
        &q.inner,
        &q.format,
        t.nrows,
    ) {
        Ok(n) => n,
        Err(e) => {
            return Err(e);
        },
    };
    let pre: usize = width_before(columns, at, t.row_width);
    match t.row_width.checked_add(n.column.byte_width) {
        None => Err(EditError::TooLarge),
        Some(row_width) => Ok(
            InsertPlan { at, pre, row_width, column: InsertColumn::Fixed(n), hint: None },
        ),
    }
}

/// Plans to put in a column with cells in the heap at a place. Its cells go
/// behind those that the heap has.
pub fn insert_vla_column_impl(
    q: &InsertRequest,
    columns: &[Column],
    a: &ArrayInfo,
    cells: &Vec<Vec<VarInput>>,
    t: TablePlace,
    at: usize,
) -> (r: Result<InsertPlan, EditError>)
    requires
        columns_ok(views(columns@), t.row_width as int),
        at <= columns@.len(),
        a.kind == 'O',
        cells@.len() == 1,
        cells@[0]@.len() == first_axis(*a),
        forall|k: int| 0 <= k < cells@[0]@.len() ==> var_input_ok(#[trigger] cells@[0]@[k]),
    ensures
        planned_insert(r, *q, views(columns@), *a, cells@, t, at as int),
{
    let n: NewHeapColumn = match plan_new_heap_column(
        q.name.as_str(),
        a,
        cells,
        &q.unit,
        &q.inner,
        &q.format,
        q.bits,
        t.nrows,
        t.pcount,
    ) {
        Ok(n) => n,
        Err(e) => {
            return Err(e);
        },
    };
    let pre: usize = width_before(columns, at, t.row_width);
    let row_width: usize = match t.row_width.checked_add(n.column.byte_width) {
        None => {
            return Err(EditError::TooLarge);
        },
        Some(w) => w,
    };
    let ghost cv = seq![synth_column(n.column@)->0];
    let col: Column = match crate::edit::synth_column_for_encode(&n.column) {
        Some(c) => c,
        None => {
            return Err(EditError::TooLarge);
        },
    };
    let mut cols: Vec<Column> = Vec::new();
    cols.push(col);
    assert(views(cols@) =~= cv);
    proof {
        assert forall|i: int, k: int|
            0 <= i < cols@.len() && 0 <= k < t.nrows && cols@[i].var_kind is Some implies (
        #[trigger] count_at(views(cols@), cells@, i, k)) is Ok by {
            assert(count_at(cv, cells@, 0, k) == Ok::<usize, crate::error::VarError>(
                n.plans@[k].nelements,
            ));
        }
    }
    let bytes: Vec<u8> = build_vla_heap_buf(&cols, cells, t.nrows);
    let hint: Option<usize> = match n.column.letter {
        Letter::X => Some(longest_cell(&n.plans)),
        _ => None,
    };
    Ok(InsertPlan { at, pre, row_width, column: InsertColumn::Heap { column: n, bytes }, hint })
}

} // verus!
