//! Writing rows whose cells are in the heap: the bytes of the heap and the rows
//! that point into it.

use vstd::prelude::*;

use crate::bytes::concat;
use crate::columns::{Column, ColumnView, column_ok, columns_fill, views};
use crate::encode::{WriteTransform, apply_transform_cell, encoded, stored_size};
use crate::error::{CellError, WriteError};
use crate::heap::{descriptor_for, write_descriptor};
use crate::input::{
    ArrayInfo, SourceMeta, acquire_per_column_array, array_input, array_lens, first_axis,
    rows_of_array, source_ok,
};
use crate::read::cell_of;
use crate::strips::{contents, lemma_row_concat, lens_of, source_value};
use crate::vla::{
    VarInput, VlaCellPlan, bytes_at, cells_ok, count_at, lemma_row_bytes, lemma_rows_bytes,
    offset_at, plan_vla_heap_layout, plans_hold, row_bytes, rows_bytes, rows_error,
    serialize_vla_cell, var_bytes, var_input_ok,
};

verus! {

// The bytes of the heap ----------------------------------------------------

/// The bytes of the cell of column `i` in row `r`; none where the column has no
/// cells in the heap.
pub open spec fn cell_heap(cols: Seq<ColumnView>, cells: Seq<Vec<VarInput>>, i: int, r: int) -> Seq<
    u8,
> {
    if cols[i].var_kind is Some {
        var_bytes(cells[i]@[r], cols[i].letter)
    } else {
        Seq::empty()
    }
}

/// The bytes of the cells of the first `k` columns in row `r`.
pub open spec fn row_heap(cols: Seq<ColumnView>, cells: Seq<Vec<VarInput>>, r: int, k: int) -> Seq<
    u8,
>
    decreases k,
{
    if k <= 0 {
        Seq::empty()
    } else {
        row_heap(cols, cells, r, k - 1) + cell_heap(cols, cells, k - 1, r)
    }
}

/// The bytes of the cells of the first `n` rows, row by row.
pub open spec fn rows_heap(cols: Seq<ColumnView>, cells: Seq<Vec<VarInput>>, n: int) -> Seq<u8>
    decreases n,
{
    if n <= 0 {
        Seq::empty()
    } else {
        rows_heap(cols, cells, n - 1) + row_heap(cols, cells, n - 1, cols.len() as int)
    }
}

/// Whether the cells of the first `n` rows are what their columns take, and of
/// lengths that can be counted.
pub open spec fn cells_valid(cols: Seq<ColumnView>, cells: Seq<Vec<VarInput>>, n: int) -> bool {
    &&& cells_ok(cols, cells, n)
    &&& forall|i: int, r: int|
        0 <= i < cols.len() && 0 <= r < n && cols[i].var_kind is Some ==> (#[trigger] count_at(
            cols,
            cells,
            i,
            r,
        )) is Ok && var_bytes(cells[i]@[r], cols[i].letter).len() == bytes_at(cols, cells, i, r)
}

/// The bytes of cells are as many as are planned for them.
pub proof fn lemma_heap_len(cols: Seq<ColumnView>, cells: Seq<Vec<VarInput>>, n: int, r: int, k: int)
    requires
        cells_valid(cols, cells, n),
        0 <= r < n,
        0 <= k <= cols.len(),
    ensures
        row_heap(cols, cells, r, k).len() == row_bytes(cols, cells, r, k),
    decreases k,
{
    if k > 0 {
        lemma_heap_len(cols, cells, n, r, k - 1);
        if cols[k - 1].var_kind is Some {
            assert(count_at(cols, cells, k - 1, r) is Ok);
        }
    }
}

pub proof fn lemma_heap_rows_len(cols: Seq<ColumnView>, cells: Seq<Vec<VarInput>>, n: int, r: int)
    requires
        cells_valid(cols, cells, n),
        0 <= r <= n,
    ensures
        rows_heap(cols, cells, r).len() == rows_bytes(cols, cells, r),
    decreases r,
{
    if r > 0 {
        lemma_heap_rows_len(cols, cells, n, r - 1);
        lemma_heap_len(cols, cells, n, r - 1, cols.len() as int);
    }
}

/// The bytes of each cell stand in the heap where its plan says.
pub proof fn law_heap_holds_cells(
    cols: Seq<ColumnView>,
    cells: Seq<Vec<VarInput>>,
    n: int,
    i: int,
    r: int,
)
    requires
        cells_valid(cols, cells, n),
        0 <= i < cols.len(),
        0 <= r < n,
    ensures
        ({
            let at = offset_at(cols, cells, 0, r, i);
            let len = bytes_at(cols, cells, i, r);
            &&& 0 <= at
            &&& at + len <= rows_heap(cols, cells, n).len()
            &&& rows_heap(cols, cells, n).subrange(at, at + len) == cell_heap(cols, cells, i, r)
        }),
    decreases n,
{
    let k = cols.len() as int;
    let at = offset_at(cols, cells, 0, r, i);
    let len = bytes_at(cols, cells, i, r);
    lemma_heap_rows_len(cols, cells, n, n);
    lemma_heap_rows_len(cols, cells, n, n - 1);
    lemma_rows_bytes(cols, cells, r, n);
    lemma_rows_bytes(cols, cells, r, n - 1);
    lemma_row_bytes(cols, cells, r, i, k);
    lemma_row_bytes(cols, cells, r, i + 1, k);
    if cols[i].var_kind is Some {
        assert(count_at(cols, cells, i, r) is Ok);
    }
    let h = rows_heap(cols, cells, n);
    let g = rows_heap(cols, cells, n - 1);
    if r < n - 1 {
        assert(cells_valid(cols, cells, n - 1)) by {
            assert forall|j: int, q: int|
                0 <= j < cols.len() && 0 <= q < n - 1 && cols[j].var_kind is Some implies (
            #[trigger] count_at(cols, cells, j, q)) is Ok && var_bytes(
                cells[j]@[q],
                cols[j].letter,
            ).len() == bytes_at(cols, cells, j, q) by {
            }
        }
        law_heap_holds_cells(cols, cells, n - 1, i, r);
        assert(h.subrange(at, at + len) =~= g.subrange(at, at + len));
    } else {
        lemma_heap_len(cols, cells, n, r, k);
        lemma_row_heap_holds(cols, cells, n, i, r, k);
        let row = row_heap(cols, cells, r, k);
        let from = row_bytes(cols, cells, r, i);
        assert(h.subrange(at, at + len) =~= row.subrange(from, from + len));
    }
}

proof fn lemma_row_heap_holds(
    cols: Seq<ColumnView>,
    cells: Seq<Vec<VarInput>>,
    n: int,
    i: int,
    r: int,
    k: int,
)
    requires
        cells_valid(cols, cells, n),
        0 <= i < k <= cols.len(),
        0 <= r < n,
    ensures
        ({
            let from = row_bytes(cols, cells, r, i);
            let len = bytes_at(cols, cells, i, r);
            &&& 0 <= from
            &&& from + len <= row_heap(cols, cells, r, k).len()
            &&& row_heap(cols, cells, r, k).subrange(from, from + len) == cell_heap(
                cols,
                cells,
                i,
                r,
            )
        }),
    decreases k,
{
    let from = row_bytes(cols, cells, r, i);
    let len = bytes_at(cols, cells, i, r);
    lemma_heap_len(cols, cells, n, r, k);
    lemma_heap_len(cols, cells, n, r, k - 1);
    lemma_heap_len(cols, cells, n, r, i);
    lemma_row_bytes(cols, cells, r, i, k);
    lemma_row_bytes(cols, cells, r, i + 1, k);
    if cols[i].var_kind is Some {
        assert(count_at(cols, cells, i, r) is Ok);
    }
    let h = row_heap(cols, cells, r, k);
    let g = row_heap(cols, cells, r, k - 1);
    if i < k - 1 {
        lemma_row_heap_holds(cols, cells, n, i, r, k - 1);
        assert(h.subrange(from, from + len) =~= g.subrange(from, from + len));
    } else {
        assert(h.subrange(from, from + len) =~= cell_heap(cols, cells, i, r));
    }
}

/// Builds the bytes of the heap: the cells row by row.
pub fn build_vla_heap_buf(columns: &[Column], cells: &Vec<Vec<VarInput>>, nrows: usize) -> (r: Vec<
    u8,
>)
    requires
        cells_ok(views(columns@), cells@, nrows as int),
        forall|i: int, q: int|
            0 <= i < columns@.len() && 0 <= q < nrows && columns@[i].var_kind is Some ==> (
            #[trigger] count_at(views(columns@), cells@, i, q)) is Ok,
    ensures
        r@ == rows_heap(views(columns@), cells@, nrows as int),
        r@.len() == rows_bytes(views(columns@), cells@, nrows as int),
        cells_valid(views(columns@), cells@, nrows as int),
{
    let n: usize = columns.len();
    let ghost cols = views(columns@);
    let mut out: Vec<u8> = Vec::new();
    let mut r: usize = 0;
    while r < nrows
        invariant
            r <= nrows,
            n == columns@.len() == cols.len(),
            cols == views(columns@),
            cells_ok(cols, cells@, nrows as int),
            forall|i: int, q: int|
                0 <= i < cols.len() && 0 <= q < nrows && cols[i].var_kind is Some ==> (
                #[trigger] count_at(cols, cells@, i, q)) is Ok,
            forall|i: int, q: int|
                0 <= i < cols.len() && 0 <= q < r && cols[i].var_kind is Some ==> (
                #[trigger] count_at(cols, cells@, i, q)) is Ok && var_bytes(
                    cells@[i]@[q],
                    cols[i].letter,
                ).len() == bytes_at(cols, cells@, i, q),
            out@ == rows_heap(cols, cells@, r as int),
            out@.len() == rows_bytes(cols, cells@, r as int),
        decreases nrows - r,
    {
        let ghost head = out@;
        let mut i: usize = 0;
        assert(head =~= head + row_heap(cols, cells@, r as int, 0));
        while i < n
            invariant
                i <= n,
                r < nrows,
                n == columns@.len() == cols.len(),
                cols == views(columns@),
                cells_ok(cols, cells@, nrows as int),
                forall|j: int, q: int|
                    0 <= j < cols.len() && 0 <= q < nrows && cols[j].var_kind is Some ==> (
                    #[trigger] count_at(cols, cells@, j, q)) is Ok,
                forall|j: int|
                    0 <= j < i && cols[j].var_kind is Some ==> (#[trigger] count_at(
                        cols,
                        cells@,
                        j,
                        r as int,
                    )) is Ok && var_bytes(cells@[j]@[r as int], cols[j].letter).len() == bytes_at(
                        cols,
                        cells@,
                        j,
                        r as int,
                    ),
                head.len() == rows_bytes(cols, cells@, r as int),
                out@ == head + row_heap(cols, cells@, r as int, i as int),
                out@.len() == rows_bytes(cols, cells@, r as int) + row_bytes(
                    cols,
                    cells@,
                    r as int,
                    i as int,
                ),
            decreases n - i,
        {
            let col: &Column = &columns[i];
            assert(cols[i as int] == col@);
            if col.var_kind.is_some() {
                proof {
                    assert(cells@[i as int]@.len() >= nrows);
                    assert(count_at(cols, cells@, i as int, r as int) is Ok);
                    assert(var_input_ok(cells@[i as int]@[r as int]));
                }
                let mut b: Vec<u8> = serialize_vla_cell(&cells[i][r], col.letter);
                let ghost piece = b@;
                out.append(&mut b);
                assert(head + (row_heap(cols, cells@, r as int, i as int) + piece) =~= (head
                    + row_heap(cols, cells@, r as int, i as int)) + piece);
            } else {
                assert(row_heap(cols, cells@, r as int, i as int) + Seq::<u8>::empty()
                    =~= row_heap(cols, cells@, r as int, i as int));
            }
            i = i + 1;
        }
        r = r + 1;
    }
    out
}

// Rows ---------------------------------------------------------------------

/// Where the cells of a column in the rows come from: its values, or the plan
/// of the heap.
#[derive(Clone, Copy, PartialEq, Eq, Structural, Debug)]
pub enum MainColumn {
    Fixed { transform: WriteTransform, meta: SourceMeta },
    Heap,
}

/// The cell of column `i` in row `r`: its value, or the descriptor of its cell
/// in the heap.
pub open spec fn main_cell(
    src: Seq<MainColumn>,
    cols: Seq<ColumnView>,
    plans: Seq<Vec<VlaCellPlan>>,
    bufs: Seq<Seq<u8>>,
    i: int,
    r: int,
) -> Result<Seq<u8>, CellError> {
    match src[i] {
        MainColumn::Fixed { transform, meta } => encoded(
            transform,
            source_value(meta, bufs, r),
        ),
        MainColumn::Heap => Ok(
            descriptor_for(
                cols[i].var_kind->0,
                plans[i]@[r].nelements as nat,
                plans[i]@[r].offset as nat,
            ),
        ),
    }
}

/// Row `r`: its cells, one behind the other.
pub open spec fn main_row(
    src: Seq<MainColumn>,
    cols: Seq<ColumnView>,
    plans: Seq<Vec<VlaCellPlan>>,
    bufs: Seq<Seq<u8>>,
    r: int,
) -> Seq<u8> {
    concat(Seq::new(cols.len(), |i: int| main_cell(src, cols, plans, bufs, i, r)->Ok_0))
}

/// The first cell of row `r` among the first `k` columns that cannot be
/// written.
pub open spec fn main_row_error(
    src: Seq<MainColumn>,
    cols: Seq<ColumnView>,
    plans: Seq<Vec<VlaCellPlan>>,
    bufs: Seq<Seq<u8>>,
    r: int,
    k: nat,
) -> Option<WriteError>
    decreases k,
{
    if k == 0 {
        None
    } else {
        match main_row_error(src, cols, plans, bufs, r, (k - 1) as nat) {
            Some(e) => Some(e),
            None => match main_cell(src, cols, plans, bufs, k - 1, r) {
                Err(cell) => Some(
                    WriteError::Cell { column: (k - 1) as usize, row: r as usize, cell },
                ),
                Ok(_) => None,
            },
        }
    }
}

/// The first cell of `n` rows from `from` on that cannot be written: rows come
/// before columns.
pub open spec fn main_error(
    src: Seq<MainColumn>,
    cols: Seq<ColumnView>,
    plans: Seq<Vec<VlaCellPlan>>,
    bufs: Seq<Seq<u8>>,
    from: int,
    n: nat,
) -> Option<WriteError>
    decreases n,
{
    if n == 0 {
        None
    } else {
        match main_error(src, cols, plans, bufs, from, (n - 1) as nat) {
            Some(e) => Some(e),
            None => main_row_error(src, cols, plans, bufs, from + n - 1, cols.len()),
        }
    }
}

/// The `n` rows from `from` on.
pub open spec fn main_rows(
    src: Seq<MainColumn>,
    cols: Seq<ColumnView>,
    plans: Seq<Vec<VlaCellPlan>>,
    bufs: Seq<Seq<u8>>,
    from: int,
    n: nat,
) -> Seq<u8> {
    concat(Seq::new(n, |r: int| main_row(src, cols, plans, bufs, from + r)))
}

proof fn lemma_main_row_error(
    src: Seq<MainColumn>,
    cols: Seq<ColumnView>,
    plans: Seq<Vec<VlaCellPlan>>,
    bufs: Seq<Seq<u8>>,
    r: int,
    m: nat,
    k: nat,
)
    requires
        m <= k,
        main_row_error(src, cols, plans, bufs, r, m) is Some,
    ensures
        main_row_error(src, cols, plans, bufs, r, k) == main_row_error(
            src,
            cols,
            plans,
            bufs,
            r,
            m,
        ),
    decreases k,
{
    if m < k {
        lemma_main_row_error(src, cols, plans, bufs, r, m, (k - 1) as nat);
    }
}

proof fn lemma_main_error(
    src: Seq<MainColumn>,
    cols: Seq<ColumnView>,
    plans: Seq<Vec<VlaCellPlan>>,
    bufs: Seq<Seq<u8>>,
    from: int,
    m: nat,
    n: nat,
)
    requires
        m <= n,
        main_error(src, cols, plans, bufs, from, m) is Some,
    ensures
        main_error(src, cols, plans, bufs, from, n) == main_error(
            src,
            cols,
            plans,
            bufs,
            from,
            m,
        ),
    decreases n,
{
    if m < n {
        lemma_main_error(src, cols, plans, bufs, from, m, (n - 1) as nat);
    }
}

/// Whether each column has a source for `nrows` rows.
pub open spec fn main_ok(
    src: Seq<MainColumn>,
    cols: Seq<ColumnView>,
    plans: Seq<Vec<VlaCellPlan>>,
    lens: Seq<usize>,
    nrows: usize,
) -> bool {
    &&& src.len() == cols.len()
    &&& plans.len() == cols.len()
    &&& forall|i: int|
        0 <= i < cols.len() ==> match #[trigger] src[i] {
            MainColumn::Fixed { transform, meta } => source_ok(transform, meta, lens, nrows)
                && stored_size(transform) == cols[i].byte_width,
            MainColumn::Heap => cols[i].var_kind is Some && plans[i]@.len() >= nrows,
        }
}

/// The cell of a column in a row that is written is its value, or the
/// descriptor of its cell in the heap.
pub proof fn law_main_row_cell(
    src: Seq<MainColumn>,
    cols: Seq<ColumnView>,
    plans: Seq<Vec<VlaCellPlan>>,
    bufs: Seq<Seq<u8>>,
    width: int,
    r: int,
    i: int,
)
    requires
        columns_fill(cols, width),
        0 <= i < cols.len(),
        forall|k: int|
            0 <= k < cols.len() ==> (#[trigger] main_cell(src, cols, plans, bufs, k, r)) is Ok
                && main_cell(src, cols, plans, bufs, k, r)->Ok_0.len() == cols[k].byte_width,
    ensures
        main_row(src, cols, plans, bufs, r).len() == width,
        cell_of(cols[i], main_row(src, cols, plans, bufs, r)) == main_cell(
            src,
            cols,
            plans,
            bufs,
            i,
            r,
        )->Ok_0,
{
    let cells = Seq::new(cols.len(), |k: int| main_cell(src, cols, plans, bufs, k, r)->Ok_0);
    assert forall|k: int| 0 <= k < cols.len() implies (#[trigger] cells[k]).len()
        == cols[k].byte_width by {
        assert(main_cell(src, cols, plans, bufs, k, r) is Ok);
    }
    lemma_row_concat(cols, width, cells);
    crate::columns::lemma_columns_fill(cols, width);
    let row = main_row(src, cols, plans, bufs, r);
    let cell = main_cell(src, cols, plans, bufs, i, r)->Ok_0;
    assert(cells[i] == cell);
    assert(cell.len() == cols[i].byte_width);
    let got = cell_of(cols[i], row);
    assert forall|y: int| 0 <= y < cell.len() implies got[y] == cell[y] by {
        assert(row[cols[i].byte_offset + y] == cells[i][y]);
    }
    assert(got =~= cell);
}

/// Appends row `r` to a strip.
pub fn fill_main_row(
    columns: &[Column],
    src: &Vec<MainColumn>,
    plans: &Vec<Vec<VlaCellPlan>>,
    bufs: &Vec<Vec<u8>>,
    r: usize,
    nrows: usize,
    out: &mut Vec<u8>,
) -> (v: Result<(), WriteError>)
    requires
        main_ok(src@, views(columns@), plans@, lens_of(bufs@), nrows),
        r < nrows,
    ensures
        match main_row_error(
            src@,
            views(columns@),
            plans@,
            contents(bufs@),
            r as int,
            columns@.len(),
        ) {
            Some(e) => v == Err::<(), WriteError>(e),
            None => v is Ok && final(out)@ == old(out)@ + main_row(
                src@,
                views(columns@),
                plans@,
                contents(bufs@),
                r as int,
            ),
        },
{
    let n: usize = columns.len();
    let ghost cols = views(columns@);
    let ghost b = contents(bufs@);
    let ghost head = out@;
    let ghost all = Seq::new(
        cols.len(),
        |i: int| main_cell(src@, cols, plans@, b, i, r as int)->Ok_0,
    );
    let mut i: usize = 0;
    proof {
        assert(all.take(0) =~= Seq::empty());
        assert(head + concat(all.take(0)) =~= head);
    }
    while i < n
        invariant
            i <= n == columns@.len() == cols.len() == all.len(),
            cols == views(columns@),
            b == contents(bufs@),
            main_ok(src@, cols, plans@, lens_of(bufs@), nrows),
            r < nrows,
            all == Seq::new(
                cols.len(),
                |i: int| main_cell(src@, cols, plans@, b, i, r as int)->Ok_0,
            ),
            main_row_error(src@, cols, plans@, b, r as int, i as nat) is None,
            out@ == head + concat(all.take(i as int)),
        decreases n - i,
    {
        proof {
            assert(all.take(i + 1).drop_last() =~= all.take(i as int));
            assert(all.take(i + 1).last() == all[i as int]);
        }
        let cell: Result<Vec<u8>, CellError> = match src[i] {
            MainColumn::Fixed { transform, meta } => {
                proof {
                    assert(source_ok(transform, meta, lens_of(bufs@), nrows)) by {
                        assert(src@[i as int] == (MainColumn::Fixed { transform, meta }));
                    }
                }
                let s: Vec<u8> = fixed_source(meta, bufs, r, nrows, transform);
                apply_transform_cell(transform, &s)
            },
            MainColumn::Heap => {
                assert(src@[i as int] == MainColumn::Heap);
                assert(cols[i as int] == columns@[i as int]@);
                let plan: VlaCellPlan = plans[i][r];
                match columns[i].var_kind {
                    Some(kind) => Ok(write_descriptor(kind, plan.nelements as u64, plan.offset as u64)),
                    None => Ok(Vec::new()),
                }
            },
        };
        match cell {
            Err(e) => {
                proof {
                    lemma_main_row_error(
                        src@,
                        cols,
                        plans@,
                        b,
                        r as int,
                        (i + 1) as nat,
                        n as nat,
                    );
                }
                return Err(WriteError::Cell { column: i, row: r, cell: e });
            },
            Ok(c) => {
                let mut piece: Vec<u8> = c;
                let ghost p = piece@;
                assert(p == all[i as int]);
                out.append(&mut piece);
                assert(head + (concat(all.take(i as int)) + p) =~= (head + concat(
                    all.take(i as int),
                )) + p);
            },
        }
        i = i + 1;
    }
    assert(all.take(n as int) =~= all);
    Ok(())
}

fn fixed_source(
    m: SourceMeta,
    bufs: &Vec<Vec<u8>>,
    r: usize,
    nrows: usize,
    t: WriteTransform,
) -> (v: Vec<u8>)
    requires
        source_ok(t, m, lens_of(bufs@), nrows),
        r < nrows,
    ensures
        v@ == source_value(m, contents(bufs@), r as int),
        v@.len() == m.size,
{
    proof {
        crate::bytes::lemma_unit_below(r as int, nrows as int, m.stride as int);
    }
    let b: &Vec<u8> = &bufs[m.buffer];
    let total: usize = b.len();
    assert(lens_of(bufs@)[m.buffer as int] == total);
    crate::bytes::copy_of(b, r * m.stride + m.offset, m.size)
}

/// Builds `chunk` rows from `row_start` on.
pub fn encode_main_rows(
    columns: &[Column],
    src: &Vec<MainColumn>,
    plans: &Vec<Vec<VlaCellPlan>>,
    bufs: &Vec<Vec<u8>>,
    row_start: usize,
    chunk: usize,
    nrows: usize,
) -> (v: Result<Vec<u8>, WriteError>)
    requires
        main_ok(src@, views(columns@), plans@, lens_of(bufs@), nrows),
        row_start + chunk <= nrows,
    ensures
        match main_error(
            src@,
            views(columns@),
            plans@,
            contents(bufs@),
            row_start as int,
            chunk as nat,
        ) {
            Some(e) => v == Err::<Vec<u8>, WriteError>(e),
            None => v matches Ok(s) && s@ == main_rows(
                src@,
                views(columns@),
                plans@,
                contents(bufs@),
                row_start as int,
                chunk as nat,
            ),
        },
{
    let ghost cols = views(columns@);
    let ghost b = contents(bufs@);
    let ghost all = Seq::new(
        chunk as nat,
        |r: int| main_row(src@, cols, plans@, b, row_start + r),
    );
    let mut out: Vec<u8> = Vec::new();
    let mut r: usize = 0;
    assert(all.take(0) =~= Seq::empty());
    while r < chunk
        invariant
            r <= chunk == all.len(),
            cols == views(columns@),
            b == contents(bufs@),
            main_ok(src@, cols, plans@, lens_of(bufs@), nrows),
            row_start + chunk <= nrows,
            all == Seq::new(
                chunk as nat,
                |r: int| main_row(src@, cols, plans@, b, row_start + r),
            ),
            main_error(src@, cols, plans@, b, row_start as int, r as nat) is None,
            out@ == concat(all.take(r as int)),
        decreases chunk - r,
    {
        proof {
            assert(all.take(r + 1).drop_last() =~= all.take(r as int));
            assert(all.take(r + 1).last() == all[r as int]);
            assert(main_error(src@, cols, plans@, b, row_start as int, (r + 1) as nat)
                == main_row_error(src@, cols, plans@, b, row_start + r, cols.len()));
        }
        match fill_main_row(columns, src, plans, bufs, row_start + r, nrows, &mut out) {
            Err(e) => {
                proof {
                    lemma_main_error(
                        src@,
                        cols,
                        plans@,
                        b,
                        row_start as int,
                        (r + 1) as nat,
                        chunk as nat,
                    );
                }
                return Err(e);
            },
            Ok(_) => {},
        }
        r = r + 1;
    }
    assert(all.take(chunk as int) =~= all);
    Ok(out)
}

// Planning a write ---------------------------------------------------------

/// A write of rows with cells in the heap, checked: where the cells of the rows
/// come from, where those of the heap go, and where the heap ends.
#[derive(Debug)]
pub struct VlaWrite {
    pub sources: Vec<MainColumn>,
    pub plans: Vec<Vec<VlaCellPlan>>,
    pub heap_end: usize,
}

/// The first column for which not `nrows` rows are given.
pub open spec fn rows_given_error(arrays: Seq<ArrayInfo>, nrows: usize, k: nat) -> Option<
    WriteError,
>
    decreases k,
{
    if k == 0 {
        None
    } else {
        match rows_given_error(arrays, nrows, (k - 1) as nat) {
            Some(e) => Some(e),
            None => if first_axis(arrays[k - 1]) != nrows {
                Some(
                    WriteError::ColumnRows {
                        column: (k - 1) as usize,
                        got: first_axis(arrays[k - 1]),
                        want: nrows,
                    },
                )
            } else {
                None
            },
        }
    }
}

proof fn lemma_rows_given(arrays: Seq<ArrayInfo>, nrows: usize, m: nat, k: nat)
    requires
        m <= k,
        rows_given_error(arrays, nrows, m) is Some,
    ensures
        rows_given_error(arrays, nrows, k) == rows_given_error(arrays, nrows, m),
    decreases k,
{
    if m < k {
        lemma_rows_given(arrays, nrows, m, (k - 1) as nat);
    }
}

/// Where the cells of the first `k` columns in the rows come from, or the first
/// column whose values do not go into it. Buffer `i` is that of column `i`.
pub open spec fn main_sources(
    arrays: Seq<ArrayInfo>,
    cols: Seq<ColumnView>,
    nrows: usize,
    k: nat,
) -> Result<Seq<MainColumn>, WriteError>
    decreases k,
{
    if k == 0 {
        Ok(Seq::empty())
    } else {
        let i = k - 1;
        match main_sources(arrays, cols, nrows, (k - 1) as nat) {
            Err(e) => Err(e),
            Ok(s) => if cols[i].var_kind is Some {
                Ok(s.push(MainColumn::Heap))
            } else {
                match array_input(arrays[i], cols[i], nrows) {
                    Err(error) => Err(WriteError::Column { column: i as usize, error }),
                    Ok((transform, size)) => Ok(
                        s.push(
                            MainColumn::Fixed {
                                transform,
                                meta: SourceMeta {
                                    buffer: i as usize,
                                    offset: 0,
                                    stride: size,
                                    size,
                                },
                            },
                        ),
                    ),
                }
            },
        }
    }
}

proof fn lemma_main_sources(
    arrays: Seq<ArrayInfo>,
    cols: Seq<ColumnView>,
    nrows: usize,
    m: nat,
    k: nat,
)
    requires
        m <= k,
        main_sources(arrays, cols, nrows, m) is Err,
    ensures
        main_sources(arrays, cols, nrows, k) == main_sources(arrays, cols, nrows, m),
    decreases k,
{
    if m < k {
        lemma_main_sources(arrays, cols, nrows, m, (k - 1) as nat);
    }
}

/// Where the cells of rows come from, some of them in the heap: the values in
/// the rows are checked, then the cells in the heap.
pub open spec fn vla_rows(
    cols: Seq<ColumnView>,
    arrays: Seq<ArrayInfo>,
    cells: Seq<Vec<VarInput>>,
    nrows: usize,
    start: usize,
) -> Result<Seq<MainColumn>, WriteError> {
    match main_sources(arrays, cols, nrows, cols.len()) {
        Err(e) => Err(e),
        Ok(s) => match rows_error(cols, cells, start as int, nrows as nat) {
            Some(e) => Err(e),
            None => Ok(s),
        },
    }
}

/// What a write of rows with cells in the heap is: the rows of each column are
/// counted, then the values are checked.
pub open spec fn vla_write(
    cols: Seq<ColumnView>,
    arrays: Seq<ArrayInfo>,
    cells: Seq<Vec<VarInput>>,
    nrows: usize,
    start: usize,
) -> Result<Seq<MainColumn>, WriteError> {
    match rows_given_error(arrays, nrows, cols.len()) {
        Some(e) => Err(e),
        None => vla_rows(cols, arrays, cells, nrows, start),
    }
}

/// Whether a plan is that of rows whose heap starts at `start`.
pub open spec fn vla_planned(
    w: VlaWrite,
    s: Seq<MainColumn>,
    cols: Seq<ColumnView>,
    arrays: Seq<ArrayInfo>,
    cells: Seq<Vec<VarInput>>,
    nrows: usize,
    start: usize,
) -> bool {
    &&& w.sources@ == s
    &&& w.plans@.len() == cols.len()
    &&& w.heap_end == start + rows_bytes(cols, cells, nrows as int)
    &&& forall|i: int|
        0 <= i < cols.len() ==> plans_hold(
            cols,
            cells,
            start as int,
            (#[trigger] w.plans@[i])@,
            i,
            nrows as int,
        )
    &&& main_ok(s, cols, w.plans@, array_lens(arrays), nrows)
}

/// Checks rows with cells in the heap, and plans the heap from `start` on.
pub fn plan_vla_rows(
    columns: &[Column],
    arrays: &Vec<ArrayInfo>,
    cells: &Vec<Vec<VarInput>>,
    nrows: usize,
    start: usize,
) -> (r: Result<VlaWrite, WriteError>)
    requires
        forall|i: int| 0 <= i < columns@.len() ==> column_ok(#[trigger] views(columns@)[i]),
        arrays@.len() == columns@.len(),
        cells_ok(views(columns@), cells@, nrows as int),
    ensures
        match vla_rows(views(columns@), arrays@, cells@, nrows, start) {
            Err(e) => r == Err::<VlaWrite, WriteError>(e),
            Ok(s) => r matches Ok(w) && vla_planned(
                w,
                s,
                views(columns@),
                arrays@,
                cells@,
                nrows,
                start,
            ),
        },
{
    let n: usize = columns.len();
    let ghost cols = views(columns@);
    let ghost lens = array_lens(arrays@);
    let mut sources: Vec<MainColumn> = Vec::new();
    let mut i: usize = 0;
    while i < n
        invariant
            i <= n == columns@.len() == cols.len() == arrays@.len(),
            cols == views(columns@),
            lens == array_lens(arrays@),
            forall|k: int| 0 <= k < n ==> column_ok(#[trigger] cols[k]),
            sources@.len() == i,
            main_sources(arrays@, cols, nrows, i as nat) == Ok::<Seq<MainColumn>, WriteError>(
                sources@,
            ),
            forall|k: int|
                0 <= k < i ==> match #[trigger] sources@[k] {
                    MainColumn::Fixed { transform, meta } => source_ok(transform, meta, lens, nrows)
                        && stored_size(transform) == cols[k].byte_width,
                    MainColumn::Heap => cols[k].var_kind is Some,
                },
        decreases n - i,
    {
        assert(cols[i as int] == columns@[i as int]@);
        assert(column_ok(cols[i as int]));
        if columns[i].var_kind.is_some() {
            sources.push(MainColumn::Heap);
        } else {
            match acquire_per_column_array(&arrays[i], &columns[i], nrows) {
                Err(error) => {
                    proof {
                        lemma_main_sources(arrays@, cols, nrows, (i + 1) as nat, n as nat);
                    }
                    return Err(WriteError::Column { column: i, error });
                },
                Ok((transform, size)) => {
                    let meta: SourceMeta = SourceMeta { buffer: i, offset: 0, stride: size, size };
                    sources.push(MainColumn::Fixed { transform, meta });
                },
            }
        }
        i = i + 1;
    }
    match plan_vla_heap_layout(columns, cells, nrows, start) {
        Err(e) => Err(e),
        Ok((plans, heap_end)) => {
            proof {
                assert forall|k: int| 0 <= k < cols.len() implies match #[trigger] sources@[k] {
                    MainColumn::Fixed { transform, meta } => source_ok(transform, meta, lens, nrows)
                        && stored_size(transform) == cols[k].byte_width,
                    MainColumn::Heap => cols[k].var_kind is Some && plans@[k]@.len() >= nrows,
                } by {
                    assert(plans_hold(
                        cols,
                        cells@,
                        start as int,
                        plans@[k]@,
                        k,
                        nrows as int,
                    ));
                }
            }
            Ok(VlaWrite { sources, plans, heap_end })
        },
    }
}

/// Checks a write of rows with cells in the heap, and plans the heap from
/// `start` on.
pub fn plan_vla_write(
    columns: &[Column],
    arrays: &Vec<ArrayInfo>,
    cells: &Vec<Vec<VarInput>>,
    nrows: usize,
    start: usize,
) -> (r: Result<VlaWrite, WriteError>)
    requires
        forall|i: int| 0 <= i < columns@.len() ==> column_ok(#[trigger] views(columns@)[i]),
        arrays@.len() == columns@.len(),
        rows_given_error(arrays@, nrows, columns@.len()) is None ==> cells_ok(
            views(columns@),
            cells@,
            nrows as int,
        ),
    ensures
        match vla_write(views(columns@), arrays@, cells@, nrows, start) {
            Err(e) => r == Err::<VlaWrite, WriteError>(e),
            Ok(s) => r matches Ok(w) && vla_planned(
                w,
                s,
                views(columns@),
                arrays@,
                cells@,
                nrows,
                start,
            ),
        },
{
    let n: usize = columns.len();
    let mut i: usize = 0;
    while i < n
        invariant
            i <= n == columns@.len() == arrays@.len(),
            rows_given_error(arrays@, nrows, i as nat) is None,
        decreases n - i,
    {
        let got: usize = rows_of_array(&arrays[i]);
        if got != nrows {
            proof {
                lemma_rows_given(arrays@, nrows, (i + 1) as nat, n as nat);
            }
            return Err(WriteError::ColumnRows { column: i, got, want: nrows });
        }
        i = i + 1;
    }
    plan_vla_rows(columns, arrays, cells, nrows, start)
}

} // verus!
