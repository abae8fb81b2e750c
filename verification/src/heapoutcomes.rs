//! What writes, added rows and assignments do to what a read of a table with a
//! heap gives.

use vstd::prelude::*;

use crate::assign::{
    HeapColumnWrite, column_set, heap_cell_count, is_heap_column, last_place, lemma_last_place,
    rows_set,
};
use crate::bytes::{ByteOrder, concat, grid, lemma_concat_rows, lemma_unit_below, splice};
use crate::cells::unit;
use crate::columns::{ColumnView, ScalingKind, column_ok, columns_ok, lemma_columns_fill};
use crate::error::{CellError, VarError, WriteError};
use crate::heap::{
    VarView, descriptor_for, descriptor_value, heap_span, lemma_descriptor_len, var_value,
};
use crate::heapwrite::{
    MainColumn, VlaWrite, cell_heap, cells_valid, law_heap_holds_cells, main_cell, main_error,
    main_row, main_row_error, main_rows, rows_heap, vla_planned, vla_rows,
};
use crate::input::{ArrayInfo, array_lens};
use crate::outcomes::{
    cell_back, data_ok, default_kinds, descriptor_holds, field_reads, given_main_row,
    law_added_rows_read, law_given_main_row_reads, law_heap_cell_reads, law_rows_read,
    law_set_cell_reads, law_set_column_reads, law_set_rows_read, law_whole_read,
    lemma_main_sources, lengths_are, plain_cell, plain_main_cell, readable, reads, row_reads,
};
use crate::read::{
    FieldPlace, ReadPlan, RowState, cell_of, field_filled, places_apart, places_fit, plan_fits,
    plan_width, row_units, rows_of, rows_state,
};
use crate::repack::{
    col_field, is_packed, law_repack_keeps_cells, live_error, live_rows, offsets_fit,
};
use crate::reshape::{law_widen_keeps_cells, narrowed, widened};
use crate::runs::{all_pairs, runs_hold};
use crate::table::{CellView, TableData, cell_view, law_heap_read, lemma_unit_field, listed_cell};
use crate::vla::{
    VarInput, VlaCellPlan, bytes_at, count_at, lemma_var_bytes, offset_at, plans_hold, var_bytes,
    var_count, var_input_ok,
};

verus! {

/// Whether what is given for `nrows` rows of a table with a heap was found to fit
/// it, and is given back by a read with the defaults. `kept` is what the heap
/// holds before.
pub open spec fn taken_rows(
    w: VlaWrite,
    cols: Seq<ColumnView>,
    arrays: Seq<ArrayInfo>,
    cells: Seq<Vec<VarInput>>,
    bufs: Seq<Seq<u8>>,
    kept: Seq<u8>,
    width: int,
    nrows: usize,
) -> bool {
    &&& columns_ok(cols, width)
    &&& kept.len() + rows_heap(cols, cells, nrows as int).len() <= usize::MAX
    &&& vla_rows(cols, arrays, cells, nrows, kept.len() as usize) == Ok::<
        Seq<MainColumn>,
        WriteError,
    >(w.sources@)
    &&& vla_planned(w, w.sources@, cols, arrays, cells, nrows, kept.len() as usize)
    &&& cells_valid(cols, cells, nrows as int)
    &&& lengths_are(bufs, array_lens(arrays))
    &&& forall|r: int, i: int|
        0 <= r < nrows && 0 <= i < cols.len() ==> #[trigger] plain_main_cell(
            w.sources@,
            cols,
            cells,
            w.plans@,
            bufs,
            i,
            r,
        )
}

/// The rows of what is given for a table with a heap.
pub open spec fn main_given(
    w: VlaWrite,
    cols: Seq<ColumnView>,
    bufs: Seq<Seq<u8>>,
    n: nat,
) -> Seq<Seq<u8>> {
    Seq::new(n, |r: int| main_row(w.sources@, cols, w.plans@, bufs, r))
}

/// The cells of what is given for a table with a heap.
pub open spec fn main_cells_given(
    w: VlaWrite,
    cols: Seq<ColumnView>,
    cells: Seq<Vec<VarInput>>,
    bufs: Seq<Seq<u8>>,
    n: nat,
) -> Seq<Seq<CellView>> {
    Seq::new(n, |r: int| given_main_row(w.sources@, cols, cells, bufs, r))
}

proof fn lemma_taken_main_row(
    w: VlaWrite,
    cols: Seq<ColumnView>,
    arrays: Seq<ArrayInfo>,
    cells: Seq<Vec<VarInput>>,
    bufs: Seq<Seq<u8>>,
    kept: Seq<u8>,
    width: int,
    nrows: usize,
    r: int,
)
    requires
        taken_rows(w, cols, arrays, cells, bufs, kept, width, nrows),
        0 <= r < nrows,
    ensures
        forall|i: int|
            0 <= i < cols.len() ==> (#[trigger] main_cell(
                w.sources@,
                cols,
                w.plans@,
                bufs,
                i,
                r,
            )) is Ok,
        row_reads(
            cols,
            width,
            main_row(w.sources@, cols, w.plans@, bufs, r),
            kept + rows_heap(cols, cells, nrows as int),
            given_main_row(w.sources@, cols, cells, bufs, r),
        ),
{
    law_given_main_row_reads(w, cols, arrays, cells, bufs, kept, width, nrows, r);
}

proof fn lemma_taken_main_rows(
    w: VlaWrite,
    cols: Seq<ColumnView>,
    arrays: Seq<ArrayInfo>,
    cells: Seq<Vec<VarInput>>,
    bufs: Seq<Seq<u8>>,
    kept: Seq<u8>,
    width: int,
    nrows: usize,
)
    requires
        taken_rows(w, cols, arrays, cells, bufs, kept, width, nrows),
    ensures
        main_error(w.sources@, cols, w.plans@, bufs, 0, nrows as nat) is None,
        forall|r: int|
            0 <= r < nrows ==> row_reads(
                cols,
                width,
                #[trigger] main_given(w, cols, bufs, nrows as nat)[r],
                kept + rows_heap(cols, cells, nrows as int),
                main_cells_given(w, cols, cells, bufs, nrows as nat)[r],
            ),
{
    assert forall|r: int| 0 <= r < nrows implies row_reads(
        cols,
        width,
        #[trigger] main_given(w, cols, bufs, nrows as nat)[r],
        kept + rows_heap(cols, cells, nrows as int),
        main_cells_given(w, cols, cells, bufs, nrows as nat)[r],
    ) by {
        lemma_taken_main_row(w, cols, arrays, cells, bufs, kept, width, nrows, r);
    }
    assert forall|r: int, i: int| 0 <= r < nrows && 0 <= i < cols.len() implies (
    #[trigger] main_cell(w.sources@, cols, w.plans@, bufs, i, r)) is Ok by {
        lemma_taken_main_row(w, cols, arrays, cells, bufs, kept, width, nrows, r);
    }
    lemma_no_main_error(w.sources@, cols, w.plans@, bufs, nrows as nat);
}

proof fn lemma_no_row_error(
    src: Seq<MainColumn>,
    cols: Seq<ColumnView>,
    plans: Seq<Vec<VlaCellPlan>>,
    bufs: Seq<Seq<u8>>,
    r: int,
    k: nat,
)
    requires
        forall|i: int|
            0 <= i < k ==> (#[trigger] main_cell(src, cols, plans, bufs, i, r)) is Ok,
    ensures
        main_row_error(src, cols, plans, bufs, r, k) is None,
    decreases k,
{
    if k > 0 {
        lemma_no_row_error(src, cols, plans, bufs, r, (k - 1) as nat);
        assert(main_cell(src, cols, plans, bufs, k - 1, r) is Ok);
    }
}

proof fn lemma_no_main_error(
    src: Seq<MainColumn>,
    cols: Seq<ColumnView>,
    plans: Seq<Vec<VlaCellPlan>>,
    bufs: Seq<Seq<u8>>,
    n: nat,
)
    requires
        forall|r: int, i: int|
            0 <= r < n && 0 <= i < cols.len() ==> (#[trigger] main_cell(
                src,
                cols,
                plans,
                bufs,
                i,
                r,
            )) is Ok,
    ensures
        main_error(src, cols, plans, bufs, 0, n) is None,
    decreases n,
{
    if n > 0 {
        lemma_no_main_error(src, cols, plans, bufs, (n - 1) as nat);
        lemma_no_row_error(src, cols, plans, bufs, n - 1, cols.len());
    }
}

/// A table with a heap that is written reads as what was given, and nothing
/// stands in the way of writing its rows.
pub proof fn law_heap_table_write_then_read(
    w: VlaWrite,
    cols: Seq<ColumnView>,
    arrays: Seq<ArrayInfo>,
    cells: Seq<Vec<VarInput>>,
    bufs: Seq<Seq<u8>>,
    width: int,
    nrows: usize,
)
    requires
        taken_rows(w, cols, arrays, cells, bufs, Seq::empty(), width, nrows),
    ensures
        main_error(w.sources@, cols, w.plans@, bufs, 0, nrows as nat) is None,
        ({
            let d = TableData {
                width,
                main: main_rows(w.sources@, cols, w.plans@, bufs, 0, nrows as nat),
                heap: rows_heap(cols, cells, nrows as int),
            };
            &&& data_ok(cols, d, nrows as int)
            &&& forall|r: int, i: int|
                0 <= r < nrows && 0 <= i < cols.len() ==> #[trigger] reads(cols, d, r, i) == Ok::<
                    CellView,
                    CellError,
                >(given_main_row(w.sources@, cols, cells, bufs, r)[i])
        }),
{
    let n = nrows as nat;
    let rows = main_given(w, cols, bufs, n);
    let wants = main_cells_given(w, cols, cells, bufs, n);
    let heap = rows_heap(cols, cells, nrows as int);
    lemma_taken_main_rows(w, cols, arrays, cells, bufs, Seq::empty(), width, nrows);
    assert(Seq::<u8>::empty() + heap =~= heap);
    law_rows_read(cols, width, rows, heap, wants);
    assert(Seq::new(n, |r: int| main_row(w.sources@, cols, w.plans@, bufs, 0 + r)) =~= rows);
    let d = TableData {
        width,
        main: main_rows(w.sources@, cols, w.plans@, bufs, 0, n),
        heap,
    };
    assert forall|r: int, i: int| 0 <= r < nrows && 0 <= i < cols.len() implies #[trigger] reads(
        cols,
        d,
        r,
        i,
    ) == Ok::<CellView, CellError>(given_main_row(w.sources@, cols, cells, bufs, r)[i]) by {
        assert(wants[r] == given_main_row(w.sources@, cols, cells, bufs, r));
    }
}

/// Rows that are added to a table with a heap read as what was given, and every
/// cell that could be read before as before.
pub proof fn law_heap_table_append_then_read(
    w: VlaWrite,
    cols: Seq<ColumnView>,
    arrays: Seq<ArrayInfo>,
    cells: Seq<Vec<VarInput>>,
    bufs: Seq<Seq<u8>>,
    d: TableData,
    n: int,
    added: usize,
)
    requires
        taken_rows(w, cols, arrays, cells, bufs, d.heap, d.width, added),
        data_ok(cols, d, n),
    ensures
        main_error(w.sources@, cols, w.plans@, bufs, 0, added as nat) is None,
        ({
            let after = TableData {
                width: d.width,
                main: d.main + main_rows(w.sources@, cols, w.plans@, bufs, 0, added as nat),
                heap: d.heap + rows_heap(cols, cells, added as int),
            };
            &&& data_ok(cols, after, n + added)
            &&& forall|r: int, i: int|
                0 <= r < n && 0 <= i < cols.len() && readable(cols, d, r, i) ==> #[trigger] reads(
                    cols,
                    after,
                    r,
                    i,
                ) == reads(cols, d, r, i)
            &&& forall|r: int, i: int|
                n <= r < n + added && 0 <= i < cols.len() ==> #[trigger] reads(cols, after, r, i)
                    == Ok::<CellView, CellError>(
                    given_main_row(w.sources@, cols, cells, bufs, r - n)[i],
                )
        }),
{
    let k = added as nat;
    let rows = main_given(w, cols, bufs, k);
    let wants = main_cells_given(w, cols, cells, bufs, k);
    let more = rows_heap(cols, cells, added as int);
    lemma_taken_main_rows(w, cols, arrays, cells, bufs, d.heap, d.width, added);
    law_added_rows_read(cols, d, n, rows, more, wants);
    assert(Seq::new(k, |r: int| main_row(w.sources@, cols, w.plans@, bufs, 0 + r)) =~= rows);
    let after = TableData {
        width: d.width,
        main: d.main + main_rows(w.sources@, cols, w.plans@, bufs, 0, k),
        heap: d.heap + more,
    };
    assert forall|r: int, i: int|
        n <= r < n + added && 0 <= i < cols.len() implies #[trigger] reads(cols, after, r, i)
        == Ok::<CellView, CellError>(
        given_main_row(w.sources@, cols, cells, bufs, r - n)[i],
    ) by {
        assert(wants[r - n] == given_main_row(w.sources@, cols, cells, bufs, r - n));
    }
}

/// Rows of a table with a heap that are overwritten read as what was given for
/// them last, and every cell of the others that could be read before as before.
/// `rows` are the rows, in the order of what is given for them.
pub proof fn law_heap_table_assign_rows_then_read(
    w: VlaWrite,
    cols: Seq<ColumnView>,
    arrays: Seq<ArrayInfo>,
    cells: Seq<Vec<VarInput>>,
    bufs: Seq<Seq<u8>>,
    d: TableData,
    n: int,
    rows: Seq<usize>,
)
    requires
        rows.len() <= usize::MAX,
        taken_rows(w, cols, arrays, cells, bufs, d.heap, d.width, rows.len() as usize),
        data_ok(cols, d, n),
        forall|k: int| 0 <= k < rows.len() ==> rows[k] < n,
    ensures
        main_error(w.sources@, cols, w.plans@, bufs, 0, rows.len()) is None,
        ({
            let after = TableData {
                width: d.width,
                main: rows_set(d.main, 0, d.width, rows, main_given(w, cols, bufs, rows.len())),
                heap: d.heap + rows_heap(cols, cells, rows.len() as int),
            };
            &&& data_ok(cols, after, n)
            &&& forall|r: int, i: int|
                0 <= r < n && 0 <= i < cols.len() ==> match last_place(rows, r) {
                    Some(k) => #[trigger] reads(cols, after, r, i) == Ok::<CellView, CellError>(
                        given_main_row(w.sources@, cols, cells, bufs, k)[i],
                    ),
                    None => readable(cols, d, r, i) ==> reads(cols, after, r, i) == reads(
                        cols,
                        d,
                        r,
                        i,
                    ),
                }
        }),
{
    let m = rows.len();
    let values = main_given(w, cols, bufs, m);
    let wants = main_cells_given(w, cols, cells, bufs, m);
    let more = rows_heap(cols, cells, m as int);
    lemma_taken_main_rows(w, cols, arrays, cells, bufs, d.heap, d.width, m as usize);
    law_set_rows_read(cols, d, n, rows, values, more, wants);
    let after = TableData {
        width: d.width,
        main: rows_set(d.main, 0, d.width, rows, values),
        heap: d.heap + more,
    };
    assert forall|r: int, i: int| 0 <= r < n && 0 <= i < cols.len() implies match last_place(
        rows,
        r,
    ) {
        Some(k) => #[trigger] reads(cols, after, r, i) == Ok::<CellView, CellError>(
            given_main_row(w.sources@, cols, cells, bufs, k)[i],
        ),
        None => readable(cols, d, r, i) ==> reads(cols, after, r, i) == reads(cols, d, r, i),
    } by {
        lemma_last_place(rows, r);
        let got = reads(cols, after, r, i);
        match last_place(rows, r) {
            Some(k) => {
                assert(wants[k] == given_main_row(w.sources@, cols, cells, bufs, k));
            },
            None => {},
        }
    }
}

// Columns and cells --------------------------------------------------------

/// A column of cells in the heap that is overwritten reads as what was given for
/// it, and every other cell that could be read before as before.
pub proof fn law_assign_heap_column_then_read(
    w: HeapColumnWrite,
    cols: Seq<ColumnView>,
    cells: Seq<Vec<VarInput>>,
    d: TableData,
    nrows: usize,
    i: int,
)
    requires
        columns_ok(cols, d.width),
        data_ok(cols, d, nrows as int),
        0 <= i < cols.len(),
        cols[i].var_kind is Some,
        default_kinds(cols)[i] is Unscaled,
        d.heap.len() + rows_heap(seq![cols[i]], cells, nrows as int).len() <= usize::MAX,
        is_heap_column(w, cols[i], cols[i].var_kind->0, cells, nrows, d.heap.len() as u64),
        cells_valid(seq![cols[i]], cells, nrows as int),
        forall|r: int|
            0 <= r < nrows ==> plain_cell(#[trigger] cells[0]@[r], cols[i].letter)
                && descriptor_holds(
                cols[i],
                count_at(seq![cols[i]], cells, 0, r)->Ok_0 as int,
                offset_at(seq![cols[i]], cells, d.heap.len() as int, r, 0),
            ),
    ensures
        ({
            let size = cols[i].byte_width as int;
            let fields = Seq::new(nrows as nat, |r: int| unit(w.descriptors@, size, r));
            let after = TableData {
                width: d.width,
                main: column_set(
                    d.main,
                    d.width,
                    cols[i].byte_offset as int,
                    fields,
                    nrows as nat,
                ),
                heap: d.heap + w.bytes@,
            };
            &&& w.descriptors@.len() == nrows * size
            &&& data_ok(cols, after, nrows as int)
            &&& forall|r: int|
                0 <= r < nrows ==> #[trigger] reads(cols, after, r, i) == Ok::<CellView, CellError>(
                    CellView::Heap(cell_back(cells[0]@[r], cols[i].letter)),
                )
            &&& forall|r: int, j: int|
                0 <= r < nrows && 0 <= j < cols.len() && j != i && readable(cols, d, r, j)
                    ==> #[trigger] reads(cols, after, r, j) == reads(cols, d, r, j)
        }),
{
    let c = cols[i];
    let kind = c.var_kind->0;
    let one = seq![c];
    let n = nrows as int;
    let start = d.heap.len() as int;
    let all = rows_heap(one, cells, n);
    let heap = d.heap + all;
    let plans = choose|plans: Seq<VlaCellPlan>|
        #![trigger plans_hold(one, cells, start, plans, 0, n)]
        plans_hold(one, cells, start, plans, 0, n) && w.descriptors@ == concat(
            Seq::new(
                nrows as nat,
                |k: int| descriptor_for(kind, plans[k].nelements as nat, plans[k].offset as nat),
            ),
        );
    let ds = Seq::new(
        nrows as nat,
        |k: int| descriptor_for(kind, plans[k].nelements as nat, plans[k].offset as nat),
    );
    let size = c.byte_width as int;
    assert(column_ok(c));
    assert forall|k: int| 0 <= k < ds.len() implies (#[trigger] ds[k]).len() == size by {
        lemma_descriptor_len(kind, plans[k].nelements as nat, plans[k].offset as nat);
    }
    lemma_concat_rows(ds, size);
    let fields = Seq::new(nrows as nat, |r: int| unit(w.descriptors@, size, r));
    let wants = Seq::new(
        nrows as nat,
        |r: int| CellView::Heap(cell_back(cells[0]@[r], c.letter)),
    );
    assert forall|r: int| 0 <= r < n implies field_reads(
        cols,
        i,
        #[trigger] fields[r],
        heap,
        wants[r],
    ) by {
        lemma_unit_below(r, n, size);
        assert(fields[r] =~= ds[r]) by {
            assert forall|y: int| 0 <= y < size implies fields[r][y] == ds[r][y] by {
                assert(grid(w.descriptors@, size, r, y) == ds[r][y]);
            }
        }
        let cell = cells[0]@[r];
        let plan = plans[r];
        assert(plain_cell(cell, c.letter));
        assert(count_at(one, cells, 0, r) == Ok::<usize, VarError>(plan.nelements));
        law_heap_holds_cells(one, cells, n, 0, r);
        let at = offset_at(one, cells, 0, r, 0);
        let len = bytes_at(one, cells, 0, r);
        assert(cell_heap(one, cells, 0, r) == var_bytes(cell, c.letter));
        assert(plan.offset == start + at);
        assert(heap.subrange(start + at, start + at + len) =~= all.subrange(at, at + len));
        assert(var_input_ok(cell)) by {
            assert(one[0].var_kind is Some);
            assert(cells[0]@.len() >= n);
        }
        law_heap_cell_reads(c, cell, heap, plan.offset as nat);
    }
    law_set_column_reads(cols, d, n, i, fields, all, wants);
}

/// A cell in the heap that is overwritten reads as what was given for it, and
/// every other cell that could be read before as before.
pub proof fn law_assign_heap_cell_then_read(
    cols: Seq<ColumnView>,
    d: TableData,
    n: int,
    r: int,
    i: int,
    cell: VarInput,
)
    requires
        columns_ok(cols, d.width),
        data_ok(cols, d, n),
        0 <= r < n,
        0 <= i < cols.len(),
        cols[i].var_kind is Some,
        default_kinds(cols)[i] is Unscaled,
        var_input_ok(cell),
        d.heap.len() <= usize::MAX,
        heap_cell_count(cell, cols[i].letter, d.heap.len() as u64) is Ok,
        plain_cell(cell, cols[i].letter),
        d.heap.len() + var_bytes(cell, cols[i].letter).len() <= usize::MAX,
        descriptor_holds(
            cols[i],
            var_count(cell, cols[i].letter)->Ok_0 as int,
            d.heap.len() as int,
        ),
    ensures
        ({
            let c = cols[i];
            let field = descriptor_for(
                c.var_kind->0,
                var_count(cell, c.letter)->Ok_0 as nat,
                d.heap.len(),
            );
            let after = TableData {
                width: d.width,
                main: splice(d.main, r * d.width + c.byte_offset, field),
                heap: d.heap + var_bytes(cell, c.letter),
            };
            &&& data_ok(cols, after, n)
            &&& reads(cols, after, r, i) == Ok::<CellView, CellError>(
                CellView::Heap(cell_back(cell, c.letter)),
            )
            &&& forall|q: int, j: int|
                0 <= q < n && 0 <= j < cols.len() && !(q == r && j == i) && readable(
                    cols,
                    d,
                    q,
                    j,
                ) ==> #[trigger] reads(cols, after, q, j) == reads(cols, d, q, j)
        }),
{
    let c = cols[i];
    let b = var_bytes(cell, c.letter);
    let heap = d.heap + b;
    let count = var_count(cell, c.letter)->Ok_0;
    let field = descriptor_for(c.var_kind->0, count as nat, d.heap.len());
    assert(column_ok(c));
    lemma_var_bytes(cell, c.letter);
    assert(heap.subrange(d.heap.len() as int, (d.heap.len() + b.len()) as int) =~= b);
    law_heap_cell_reads(c, cell, heap, d.heap.len());
    law_set_cell_reads(
        cols,
        d,
        n,
        r,
        i,
        field,
        b,
        CellView::Heap(cell_back(cell, c.letter)),
    );
}

// Whole reads --------------------------------------------------------------

/// A table with a heap that is written and then read whole with the defaults, on
/// a little-endian host, comes back as it was given: the fields of the records
/// hold the values of fixed width, and each cell in the heap is listed, and found
/// through its descriptor in the heap, which starts at `base` in the file.
pub proof fn law_heap_table_round_trip(
    w: VlaWrite,
    cols: Seq<ColumnView>,
    arrays: Seq<ArrayInfo>,
    cells: Seq<Vec<VarInput>>,
    bufs: Seq<Seq<u8>>,
    width: int,
    nrows: usize,
    rp: ReadPlan,
    places: Seq<FieldPlace>,
    itemsize: int,
    st: RowState,
    base: u64,
)
    requires
        taken_rows(w, cols, arrays, cells, bufs, Seq::empty(), width, nrows),
        nrows <= i64::MAX,
        base + rows_heap(cols, cells, nrows as int).len() <= u64::MAX,
        crate::columns::views(rp.columns@) == cols,
        rp.kinds@ == default_kinds(cols),
        !rp.as_bytes,
        runs_hold(rp.runs@, Seq::new(nrows as nat, |r: int| r as usize)),
        plan_fits(rp, width),
        places_fit(rp, places, itemsize),
        places_apart(rp, places),
        itemsize >= 0,
        st.out.len() == nrows * itemsize,
    ensures
        main_error(w.sources@, cols, w.plans@, bufs, 0, nrows as nat) is None,
        ({
            let main = main_rows(w.sources@, cols, w.plans@, bufs, 0, nrows as nat);
            let heap = rows_heap(cols, cells, nrows as int);
            let rows = rows_of(row_units(main, width, nrows as nat), all_pairs(rp.runs@));
            let s = rows_state(
                rp,
                places,
                itemsize,
                rows,
                all_pairs(rp.runs@),
                ByteOrder::Little,
                st,
            );
            &&& s is Ok
            &&& forall|r: int, i: int|
                0 <= r < nrows && 0 <= i < cols.len() && field_filled(cols[i], rp.kinds@[i])
                    ==> #[trigger] given_main_row(w.sources@, cols, cells, bufs, r)[i]
                    == CellView::Fixed(
                    s->Ok_0.out.subrange(
                        r * itemsize + places[i].offset,
                        r * itemsize + places[i].offset + plan_width(
                            cols[i],
                            rp.kinds@[i],
                            false,
                        ),
                    ),
                )
            &&& forall|r: int, i: int|
                0 <= r < nrows && 0 <= i < cols.len() && cols[i].var_kind is Some ==> {
                    let l = #[trigger] listed_cell(cols, unit(main, width, r), r as usize, i);
                    &&& s->Ok_0.cells.contains(l)
                    &&& l.nelements <= usize::MAX ==> (heap_span(
                        cols[i].letter,
                        l.nelements,
                        l.heap_offset,
                        base,
                    ) matches Ok((at, len)) && var_value(
                        cols[i].letter,
                        heap.subrange(at - base, at - base + len),
                        l.nelements as nat,
                        false,
                        rp.kinds@[i],
                        ByteOrder::Little,
                    ) == Ok::<VarView, CellError>(cell_back(cells[i]@[r], cols[i].letter)))
                }
        }),
{
    let n = nrows as nat;
    let main = main_rows(w.sources@, cols, w.plans@, bufs, 0, n);
    let heap = rows_heap(cols, cells, nrows as int);
    let d = TableData { width, main, heap };
    let wants = main_cells_given(w, cols, cells, bufs, n);
    law_heap_table_write_then_read(w, cols, arrays, cells, bufs, width, nrows);
    assert forall|r: int, i: int| 0 <= r < n && 0 <= i < cols.len() implies #[trigger] reads(
        cols,
        d,
        r,
        i,
    ) == Ok::<CellView, CellError>(wants[r][i]) by {
        assert(wants[r] == given_main_row(w.sources@, cols, cells, bufs, r));
    }
    law_whole_read(cols, d, n, wants, rp, places, itemsize, st);
    let rows = rows_of(row_units(main, width, n), all_pairs(rp.runs@));
    let s = rows_state(rp, places, itemsize, rows, all_pairs(rp.runs@), ByteOrder::Little, st);
    assert forall|r: int, i: int|
        0 <= r < nrows && 0 <= i < cols.len() && field_filled(
            cols[i],
            rp.kinds@[i],
        ) implies #[trigger] given_main_row(w.sources@, cols, cells, bufs, r)[i]
        == CellView::Fixed(
        s->Ok_0.out.subrange(
            r * itemsize + places[i].offset,
            r * itemsize + places[i].offset + plan_width(cols[i], rp.kinds@[i], false),
        ),
    ) by {
        assert(wants[r][i] == given_main_row(w.sources@, cols, cells, bufs, r)[i]);
    }
    lemma_columns_fill(cols, width);
    lemma_main_sources(arrays, cols, nrows, cols.len());
    assert forall|r: int, i: int|
        0 <= r < nrows && 0 <= i < cols.len() && cols[i].var_kind is Some implies ({
        let l = #[trigger] listed_cell(cols, unit(main, width, r), r as usize, i);
        &&& s->Ok_0.cells.contains(l)
        &&& l.nelements <= usize::MAX ==> (heap_span(
            cols[i].letter,
            l.nelements,
            l.heap_offset,
            base,
        ) matches Ok((at, len)) && var_value(
            cols[i].letter,
            heap.subrange(at - base, at - base + len),
            l.nelements as nat,
            false,
            rp.kinds@[i],
            ByteOrder::Little,
        ) == Ok::<VarView, CellError>(cell_back(cells[i]@[r], cols[i].letter)))
    }) by {
        let c = cols[i];
        let l = listed_cell(cols, unit(main, width, r), r as usize, i);
        let field = col_field(cols, main, width, r, i);
        lemma_unit_field(cols, width, main, n as int, r, i);
        assert(column_ok(c));
        lemma_unit_below(r, n as int, width);
        assert(field.len() == c.byte_width);
        assert(reads(cols, d, r, i) == Ok::<CellView, CellError>(wants[r][i]));
        crate::heap::lemma_descriptor_range(c.var_kind->0, field);
        let (count, off) = descriptor_value(c.var_kind->0, field);
        assert(w.sources@[i] is Heap);
        assert(wants[r][i] == CellView::Heap(cell_back(cells[i]@[r], c.letter)));
        if count <= usize::MAX {
            law_heap_read(c, rp.kinds@[i], false, field, heap, ByteOrder::Little, base);
        }
    }
}

// A heap without orphans ---------------------------------------------------

/// After repacking every cell reads as before, as long as the descriptors hold
/// the new offsets.
pub proof fn law_repack_then_read(
    cols: Seq<ColumnView>,
    d: TableData,
    now: Seq<u8>,
    n: int,
    r: int,
    i: int,
)
    requires
        columns_ok(cols, d.width),
        data_ok(cols, d, n),
        live_error(cols, d.main, d.width, d.heap, n as nat) is None,
        is_packed(cols, d.main, now, d.width, d.heap, n),
        offsets_fit(cols, d.main, d.width, d.heap, n),
        d.heap.len() <= u64::MAX,
        live_rows(cols, d.main, d.width, d.heap, n).len() <= u64::MAX,
        0 <= r < n,
        0 <= i < cols.len(),
    ensures
        reads(
            cols,
            TableData {
                width: d.width,
                main: now,
                heap: live_rows(cols, d.main, d.width, d.heap, n),
            },
            r,
            i,
        ) == reads(cols, d, r, i),
{
    law_repack_keeps_cells(cols, d.main, now, d.width, d.heap, n, r, i);
}

// Columns put in and taken out ---------------------------------------------

/// Whether a column is another one but for its name and its place in the row.
pub open spec fn same_but_place(c: ColumnView, c2: ColumnView) -> bool {
    c2 == (ColumnView { name: c2.name, byte_offset: c2.byte_offset, ..c })
}

/// A cell of a column beside which another one is put in reads as before.
pub proof fn law_insert_then_read(
    c: ColumnView,
    c2: ColumnView,
    kind: ScalingKind,
    as_bytes: bool,
    row: Seq<u8>,
    pre: int,
    cell: Seq<u8>,
    heap: Seq<u8>,
    order: ByteOrder,
)
    requires
        same_but_place(c, c2),
        0 <= pre <= row.len(),
        c.byte_offset + c.byte_width <= row.len(),
        c.byte_offset + c.byte_width <= pre || pre <= c.byte_offset,
        c2.byte_offset == if c.byte_offset + c.byte_width <= pre {
            c.byte_offset as int
        } else {
            c.byte_offset + cell.len()
        },
    ensures
        cell_view(
            c2,
            kind,
            as_bytes,
            cell_of(c2, widened(row, pre, cell)),
            heap,
            order,
        ) == cell_view(c, kind, as_bytes, cell_of(c, row), heap, order),
{
    law_widen_keeps_cells(row, pre, cell, c.byte_offset as int, c.byte_width as int);
    assert(cell_of(c2, widened(row, pre, cell)) == cell_of(c, row));
}

/// A cell of a column beside which another one is taken out reads as before.
pub proof fn law_delete_then_read(
    c: ColumnView,
    c2: ColumnView,
    kind: ScalingKind,
    as_bytes: bool,
    row: Seq<u8>,
    pre: int,
    post: int,
    heap: Seq<u8>,
    order: ByteOrder,
)
    requires
        same_but_place(c, c2),
        0 <= pre <= post <= row.len(),
        c.byte_offset + c.byte_width <= row.len(),
        c.byte_offset + c.byte_width <= pre || post <= c.byte_offset,
        c2.byte_offset == if c.byte_offset + c.byte_width <= pre {
            c.byte_offset as int
        } else {
            c.byte_offset - (post - pre)
        },
    ensures
        cell_view(
            c2,
            kind,
            as_bytes,
            cell_of(c2, narrowed(row, pre, post)),
            heap,
            order,
        ) == cell_view(c, kind, as_bytes, cell_of(c, row), heap, order),
{
    assert(cell_of(c2, narrowed(row, pre, post)) =~= cell_of(c, row));
}

} // verus!
