//! A table as cells: what a read gives of each of them.

use vstd::prelude::*;

use crate::bytes::{ByteOrder, concat, grid, lemma_concat_rows, lemma_unit_below};
use crate::cells::{string_len, unit};
use crate::columns::{
    ColumnView, ScalingKind, column_ok, columns_fill, descriptor_size, lemma_columns_fill, scaling,
    views,
};
use crate::encode::{
    WriteTransform, encoded, law_byte_strings_read_as_text, source_size, transform_for, wide_text,
};
use crate::error::CellError;
use crate::heap::{VarCell, VarView, descriptor_value, heap_span, lemma_descriptor_range, var_value};
use crate::read::{
    FieldPlace, ReadPlan, RowState, cell_of, field_filled, field_holds, law_read_in_order,
    places_apart, places_fit, plan_fits, plan_value, plan_width, row_state, row_units, rows_of,
    rows_state,
};
use crate::repack::{col_field, pointed};
use crate::roundtrip::{exact_value, law_write_then_read, plain_strings};
use crate::runs::{all_pairs, has_place, lemma_runs_places, runs_hold};

verus! {

// Cells --------------------------------------------------------------------

/// The value of a cell: the bytes of its elements, or what stands in the heap.
pub enum CellView {
    Fixed(Seq<u8>),
    Heap(VarView),
}

/// What a read gives of a cell, which takes up `field` in its row. `kind` is how
/// the column is scaled.
pub open spec fn cell_view(
    c: ColumnView,
    kind: ScalingKind,
    as_bytes: bool,
    field: Seq<u8>,
    heap: Seq<u8>,
    order: ByteOrder,
) -> Result<CellView, CellError> {
    match c.var_kind {
        None => match plan_value(c, kind, as_bytes, field, order) {
            Err(e) => Err(e),
            Ok(v) => Ok(CellView::Fixed(v)),
        },
        Some(k) => {
            let d = descriptor_value(k, field);
            match pointed(c.letter, d, heap) {
                Err(e) => Err(e),
                Ok(b) => match var_value(c.letter, b, d.0 as nat, as_bytes, kind, order) {
                    Err(e) => Err(e),
                    Ok(v) => Ok(CellView::Heap(v)),
                },
            }
        },
    }
}

/// The data of a table: the bytes of its rows, `width` each, and of its heap.
pub struct TableData {
    pub width: int,
    pub main: Seq<u8>,
    pub heap: Seq<u8>,
}

/// What a read gives of the cell of column `i` in row `r`.
pub open spec fn table_cell(
    cols: Seq<ColumnView>,
    kinds: Seq<ScalingKind>,
    as_bytes: bool,
    d: TableData,
    order: ByteOrder,
    r: int,
    i: int,
) -> Result<CellView, CellError> {
    cell_view(
        cols[i],
        kinds[i],
        as_bytes,
        col_field(cols, d.main, d.width, r, i),
        d.heap,
        order,
    )
}

/// A cell whose bytes stay, and whose heap is only added to, reads as before.
pub proof fn law_kept_cell(
    c: ColumnView,
    kind: ScalingKind,
    as_bytes: bool,
    field: Seq<u8>,
    heap: Seq<u8>,
    more: Seq<u8>,
    order: ByteOrder,
)
    requires
        c.var_kind is None || cell_view(c, kind, as_bytes, field, heap, order) is Ok,
    ensures
        cell_view(c, kind, as_bytes, field, heap + more, order) == cell_view(
            c,
            kind,
            as_bytes,
            field,
            heap,
            order,
        ),
{
    match c.var_kind {
        None => {},
        Some(k) => {
            let (n, off) = descriptor_value(k, field);
            let b = pointed(c.letter, (n, off), heap)->Ok_0;
            assert((heap + more).subrange(off, off + b.len()) =~= b);
        },
    }
}

/// A cell in the heap that can be read is read from the bytes that its
/// descriptor names in the file, where the heap starts at `base`.
pub proof fn law_heap_read(
    c: ColumnView,
    kind: ScalingKind,
    as_bytes: bool,
    field: Seq<u8>,
    heap: Seq<u8>,
    order: ByteOrder,
    base: u64,
)
    requires
        c.var_kind is Some,
        field.len() == descriptor_size(c.var_kind->0),
        cell_view(c, kind, as_bytes, field, heap, order) is Ok,
        heap.len() <= usize::MAX,
        base + heap.len() <= u64::MAX,
        descriptor_value(c.var_kind->0, field).0 <= usize::MAX,
    ensures
        ({
            let (n, off) = descriptor_value(c.var_kind->0, field);
            &&& 0 <= n <= i64::MAX
            &&& 0 <= off <= i64::MAX
            &&& heap_span(c.letter, n as i64, off as i64, base) matches Ok((at, len)) && at == base
                + off && off + len <= heap.len() && (var_value(
                c.letter,
                heap.subrange(at - base, at - base + len),
                n as nat,
                as_bytes,
                kind,
                order,
            ) matches Ok(v) && cell_view(c, kind, as_bytes, field, heap, order) == Ok::<
                CellView,
                CellError,
            >(CellView::Heap(v)))
        }),
{
    lemma_descriptor_range(c.var_kind->0, field);
}

// Values of fixed width ----------------------------------------------------

/// Whether a transform is one that takes values into a column.
pub open spec fn transform_fits(c: ColumnView, t: WriteTransform) -> bool {
    exists|kind: char, size: usize| #[trigger] transform_for(c, kind, size) == Ok::<
        WriteTransform,
        crate::error::TransformError,
    >(t)
}

/// Whether a value is one that a column gives back as it was given. Of strings
/// that are given as bytes that is asked as of strings of characters.
pub open spec fn plain_value(c: ColumnView, t: WriteTransform, src: Seq<u8>) -> bool {
    &&& exact_value(c, t, src)
    &&& t is BytesCopy ==> string_len(c) > 0 && src.len() as int % string_len(c) as int == 0
        && plain_strings(src, string_len(c) as int)
}

/// What a read gives of a value: strings of bytes come back as strings of
/// characters, all else as it was given.
pub open spec fn value_back(t: WriteTransform, src: Seq<u8>) -> Seq<u8> {
    if t is BytesCopy {
        wide_text(src)
    } else {
        src
    }
}

/// A value that is written into a column and read from it, on a little-endian
/// host, is the value that was given; strings of bytes are then strings of
/// characters.
pub proof fn law_value_reads_back(
    c: ColumnView,
    t: WriteTransform,
    src: Seq<u8>,
    heap: Seq<u8>,
)
    requires
        column_ok(c),
        c.var_kind is None,
        transform_fits(c, t),
        src.len() == source_size(t),
        plain_value(c, t, src),
    ensures
        encoded(t, src) is Ok,
        encoded(t, src)->Ok_0.len() == c.byte_width,
        scaling(c.letter, c.tscal, c.tzero) is Some,
        !(scaling(c.letter, c.tscal, c.tzero)->0 is General),
        cell_view(
            c,
            scaling(c.letter, c.tscal, c.tzero)->0,
            false,
            encoded(t, src)->Ok_0,
            heap,
            ByteOrder::Little,
        ) == Ok::<CellView, CellError>(CellView::Fixed(value_back(t, src))),
{
    let (kind, size) = choose|kind: char, size: usize| #[trigger] transform_for(c, kind, size)
        == Ok::<WriteTransform, crate::error::TransformError>(t);
    law_write_then_read(c, kind, size, src);
    if t is BytesCopy {
        law_byte_strings_read_as_text(src, string_len(c));
        assert(src.take(src.len() as int) =~= src);
    }
}

// Rows ---------------------------------------------------------------------

/// The cell of a column in rows that stand one behind the other is that of its
/// row.
pub proof fn lemma_rows_field(
    cols: Seq<ColumnView>,
    width: int,
    rows: Seq<Seq<u8>>,
    r: int,
    i: int,
)
    requires
        columns_fill(cols, width),
        forall|k: int| 0 <= k < rows.len() ==> (#[trigger] rows[k]).len() == width,
        0 <= r < rows.len(),
        0 <= i < cols.len(),
    ensures
        concat(rows).len() == rows.len() * width,
        col_field(cols, concat(rows), width, r, i) == cell_of(cols[i], rows[r]),
{
    lemma_columns_fill(cols, width);
    lemma_concat_rows(rows, width);
    lemma_unit_below(r, rows.len() as int, width);
    let f = col_field(cols, concat(rows), width, r, i);
    let g = cell_of(cols[i], rows[r]);
    assert(rows[r].len() == width);
    assert forall|y: int| 0 <= y < cols[i].byte_width implies f[y] == g[y] by {
        assert(grid(concat(rows), width, r, cols[i].byte_offset + y) == rows[r][
            cols[i].byte_offset + y
        ]);
    }
    assert(f =~= g);
}

/// The cell of a column in a row, wherever the row stands.
pub proof fn lemma_unit_field(
    cols: Seq<ColumnView>,
    width: int,
    main: Seq<u8>,
    n: int,
    r: int,
    i: int,
)
    requires
        0 <= r < n,
        0 <= width,
        main.len() == n * width,
        0 <= i < cols.len(),
        cols[i].byte_offset + cols[i].byte_width <= width,
    ensures
        cell_of(cols[i], unit(main, width, r)) == col_field(cols, main, width, r, i),
{
    lemma_unit_below(r, n, width);
    assert(cell_of(cols[i], unit(main, width, r)) =~= col_field(cols, main, width, r, i));
}

// Reading ------------------------------------------------------------------

/// The descriptors of the first `k` columns of a row, as a read lists them.
pub open spec fn row_cells(
    cols: Seq<ColumnView>,
    row: Seq<u8>,
    output_row: usize,
    k: nat,
) -> Seq<VarCell>
    decreases k,
{
    if k == 0 {
        Seq::empty()
    } else {
        let s = row_cells(cols, row, output_row, (k - 1) as nat);
        match cols[k - 1].var_kind {
            None => s,
            Some(kind) => s.push(listed_cell(cols, row, output_row, k - 1)),
        }
    }
}

/// What a read lists of the cell of column `i` in a row.
pub open spec fn listed_cell(
    cols: Seq<ColumnView>,
    row: Seq<u8>,
    output_row: usize,
    i: int,
) -> VarCell {
    let d = descriptor_value(cols[i].var_kind->0, cell_of(cols[i], row));
    VarCell {
        output_row,
        column: i as usize,
        nelements: d.0 as i64,
        heap_offset: d.1 as i64,
    }
}

proof fn lemma_row_lists(
    p: ReadPlan,
    places: Seq<FieldPlace>,
    base: int,
    output_row: usize,
    row: Seq<u8>,
    order: ByteOrder,
    st: RowState,
    k: nat,
)
    requires
        row_state(p, places, base, output_row, row, order, st, k) is Ok,
    ensures
        row_state(p, places, base, output_row, row, order, st, k)->Ok_0.cells == st.cells
            + row_cells(views(p.columns@), row, output_row, k),
    decreases k,
{
    let cols = views(p.columns@);
    let all = row_cells(cols, row, output_row, k);
    if k == 0 {
        assert(st.cells + all =~= st.cells);
    } else {
        lemma_row_lists(p, places, base, output_row, row, order, st, (k - 1) as nat);
        let s = row_cells(cols, row, output_row, (k - 1) as nat);
        if cols[k - 1].var_kind is Some {
            let c = listed_cell(cols, row, output_row, k - 1);
            assert((st.cells + s).push(c) =~= st.cells + s.push(c));
        }
    }
}

proof fn lemma_row_cells_hold(
    cols: Seq<ColumnView>,
    row: Seq<u8>,
    output_row: usize,
    k: nat,
    i: int,
)
    requires
        0 <= i < k,
        cols[i].var_kind is Some,
    ensures
        row_cells(cols, row, output_row, k).contains(listed_cell(cols, row, output_row, i)),
    decreases k,
{
    let all = row_cells(cols, row, output_row, k);
    let s = row_cells(cols, row, output_row, (k - 1) as nat);
    let c = listed_cell(cols, row, output_row, i);
    if i < k - 1 {
        lemma_row_cells_hold(cols, row, output_row, (k - 1) as nat, i);
        let m = choose|m: int| 0 <= m < s.len() && s[m] == c;
        assert(all[m] == c);
    } else {
        assert(all[s.len() as int] == c);
    }
}

/// A read lists the descriptor of every cell in the heap, with the record and
/// the column that it is for.
pub proof fn law_read_lists_heap_cells(
    p: ReadPlan,
    places: Seq<FieldPlace>,
    itemsize: int,
    rows: Seq<Seq<u8>>,
    pairs: Seq<(i64, usize)>,
    order: ByteOrder,
    st: RowState,
    t: int,
    i: int,
)
    requires
        rows_state(p, places, itemsize, rows, pairs, order, st) is Ok,
        0 <= t < rows.len(),
        0 <= i < p.columns@.len(),
        views(p.columns@)[i].var_kind is Some,
    ensures
        rows_state(p, places, itemsize, rows, pairs, order, st)->Ok_0.cells.contains(
            listed_cell(views(p.columns@), rows[t], pairs[t].1, i),
        ),
    decreases rows.len(),
{
    let cols = views(p.columns@);
    let k = p.columns@.len();
    let pair = pairs[rows.len() - 1];
    let before = rows_state(p, places, itemsize, rows.drop_last(), pairs, order, st)->Ok_0;
    let after = rows_state(p, places, itemsize, rows, pairs, order, st)->Ok_0;
    let c = listed_cell(cols, rows[t], pairs[t].1, i);
    lemma_row_lists(p, places, pair.1 * itemsize, pair.1, rows.last(), order, before, k);
    let more = row_cells(cols, rows.last(), pair.1, k);
    assert(after.cells == before.cells + more);
    if t < rows.len() - 1 {
        law_read_lists_heap_cells(
            p,
            places,
            itemsize,
            rows.drop_last(),
            pairs,
            order,
            st,
            t,
            i,
        );
        let m = choose|m: int| 0 <= m < before.cells.len() && before.cells[m] == c;
        assert(after.cells[m] == c);
    } else {
        lemma_row_cells_hold(cols, rows.last(), pair.1, k, i);
        let m = choose|m: int| 0 <= m < more.len() && more[m] == c;
        assert(after.cells[before.cells.len() + m] == c);
    }
}

proof fn lemma_row_reads(
    p: ReadPlan,
    places: Seq<FieldPlace>,
    base: int,
    output_row: usize,
    row: Seq<u8>,
    order: ByteOrder,
    st: RowState,
    k: nat,
)
    requires
        k <= p.columns@.len(),
        forall|i: int|
            0 <= i < p.columns@.len() && field_filled(views(p.columns@)[i], p.kinds@[i]) ==> (
            #[trigger] plan_value(
                views(p.columns@)[i],
                p.kinds@[i],
                p.as_bytes,
                cell_of(views(p.columns@)[i], row),
                order,
            )) is Ok,
    ensures
        row_state(p, places, base, output_row, row, order, st, k) is Ok,
    decreases k,
{
    if k > 0 {
        lemma_row_reads(p, places, base, output_row, row, order, st, (k - 1) as nat);
        let i = k - 1;
        if field_filled(views(p.columns@)[i], p.kinds@[i]) {
            assert(plan_value(
                views(p.columns@)[i],
                p.kinds@[i],
                p.as_bytes,
                cell_of(views(p.columns@)[i], row),
                order,
            ) is Ok);
        }
    }
}

/// Rows are read without an error where each of their cells is.
pub proof fn lemma_rows_read(
    p: ReadPlan,
    places: Seq<FieldPlace>,
    itemsize: int,
    rows: Seq<Seq<u8>>,
    pairs: Seq<(i64, usize)>,
    order: ByteOrder,
    st: RowState,
)
    requires
        forall|t: int, i: int|
            0 <= t < rows.len() && 0 <= i < p.columns@.len() && field_filled(
                views(p.columns@)[i],
                p.kinds@[i],
            ) ==> (#[trigger] plan_value(
                views(p.columns@)[i],
                p.kinds@[i],
                p.as_bytes,
                cell_of(views(p.columns@)[i], rows[t]),
                order,
            )) is Ok,
    ensures
        rows_state(p, places, itemsize, rows, pairs, order, st) is Ok,
    decreases rows.len(),
{
    if rows.len() > 0 {
        let cols = views(p.columns@);
        let front = rows.drop_last();
        assert forall|t: int, i: int|
            0 <= t < front.len() && 0 <= i < p.columns@.len() && field_filled(
                cols[i],
                p.kinds@[i],
            ) implies (#[trigger] plan_value(
            cols[i],
            p.kinds@[i],
            p.as_bytes,
            cell_of(cols[i], front[t]),
            order,
        )) is Ok by {
            assert(front[t] == rows[t]);
        }
        lemma_rows_read(p, places, itemsize, front, pairs, order, st);
        let s = rows_state(p, places, itemsize, front, pairs, order, st)->Ok_0;
        let pair = pairs[rows.len() - 1];
        let t = rows.len() - 1;
        assert forall|i: int|
            0 <= i < p.columns@.len() && field_filled(cols[i], p.kinds@[i]) implies (
        #[trigger] plan_value(
            cols[i],
            p.kinds@[i],
            p.as_bytes,
            cell_of(cols[i], rows.last()),
            order,
        )) is Ok by {
            assert(cell_of(cols[i], rows[t]) == cell_of(cols[i], rows.last()));
        }
        lemma_row_reads(
            p,
            places,
            pair.1 * itemsize,
            pair.1,
            rows.last(),
            order,
            s,
            p.columns@.len(),
        );
    }
}

/// What a read gives of the cells of a table, in the order that was asked for:
/// where every cell can be read, the read succeeds; the fields of record `j`
/// hold the values of row `asked[j]`; and each cell in the heap is listed with
/// its record, its column and its descriptor.
pub proof fn law_read_gives_cells(
    p: ReadPlan,
    places: Seq<FieldPlace>,
    itemsize: int,
    d: TableData,
    n: nat,
    asked: Seq<usize>,
    order: ByteOrder,
    st: RowState,
)
    requires
        plan_fits(p, d.width),
        places_fit(p, places, itemsize),
        places_apart(p, places),
        itemsize >= 0,
        0 <= d.width,
        d.main.len() == n * d.width,
        n <= i64::MAX,
        runs_hold(p.runs@, asked),
        asked.no_duplicates(),
        asked.len() <= usize::MAX,
        forall|j: int| 0 <= j < asked.len() ==> asked[j] < n,
        st.out.len() == asked.len() * itemsize,
        forall|r: int, i: int|
            0 <= r < n && 0 <= i < p.columns@.len() && field_filled(
                views(p.columns@)[i],
                p.kinds@[i],
            ) ==> (#[trigger] table_cell(
                views(p.columns@),
                p.kinds@,
                p.as_bytes,
                d,
                order,
                r,
                i,
            )) is Ok,
    ensures
        ({
            let cols = views(p.columns@);
            let rows = rows_of(row_units(d.main, d.width, n), all_pairs(p.runs@));
            let s = rows_state(p, places, itemsize, rows, all_pairs(p.runs@), order, st);
            &&& s is Ok
            &&& forall|j: int, i: int|
                #![trigger table_cell(cols, p.kinds@, p.as_bytes, d, order, asked[j] as int, i)]
                0 <= j < asked.len() && 0 <= i < cols.len() && field_filled(cols[i], p.kinds@[i])
                    ==> table_cell(cols, p.kinds@, p.as_bytes, d, order, asked[j] as int, i) == Ok::<
                    CellView,
                    CellError,
                >(
                    CellView::Fixed(
                        s->Ok_0.out.subrange(
                            j * itemsize + places[i].offset,
                            j * itemsize + places[i].offset + plan_width(
                                cols[i],
                                p.kinds@[i],
                                p.as_bytes,
                            ),
                        ),
                    ),
                )
            &&& forall|j: int, i: int|
                0 <= j < asked.len() && 0 <= i < cols.len() && cols[i].var_kind is Some
                    ==> s->Ok_0.cells.contains(
                    #[trigger] listed_cell(
                        cols,
                        unit(d.main, d.width, asked[j] as int),
                        j as usize,
                        i,
                    ),
                )
        }),
{
    let cols = views(p.columns@);
    let table = row_units(d.main, d.width, n);
    let pairs = all_pairs(p.runs@);
    let rows = rows_of(table, pairs);
    lemma_runs_places(p.runs@, asked);
    assert forall|t: int, i: int|
        0 <= t < rows.len() && 0 <= i < p.columns@.len() && field_filled(
            cols[i],
            p.kinds@[i],
        ) implies (#[trigger] plan_value(
        cols[i],
        p.kinds@[i],
        p.as_bytes,
        cell_of(cols[i], rows[t]),
        order,
    )) is Ok by {
        assert(asked[pairs[t].1 as int] == pairs[t].0);
        let r = pairs[t].0 as int;
        assert(rows[t] == table[r]);
        assert(column_ok(cols[i]));
        lemma_unit_field(cols, d.width, d.main, n as int, r, i);
        assert(table_cell(cols, p.kinds@, p.as_bytes, d, order, r, i) is Ok);
    }
    lemma_rows_read(p, places, itemsize, rows, pairs, order, st);
    assert forall|t: int| 0 <= t < table.len() implies (#[trigger] table[t]).len() == d.width by {
        lemma_unit_below(t, n as int, d.width);
    }
    law_read_in_order(p, places, itemsize, d.width, table, asked, order, st);
    let s = rows_state(p, places, itemsize, rows, pairs, order, st)->Ok_0;
    assert forall|j: int, i: int|
        #![trigger table_cell(cols, p.kinds@, p.as_bytes, d, order, asked[j] as int, i)]
        0 <= j < asked.len() && 0 <= i < cols.len() && field_filled(
            cols[i],
            p.kinds@[i],
        ) implies table_cell(cols, p.kinds@, p.as_bytes, d, order, asked[j] as int, i) == Ok::<
        CellView,
        CellError,
    >(
        CellView::Fixed(
            s.out.subrange(
                j * itemsize + places[i].offset,
                j * itemsize + places[i].offset + plan_width(cols[i], p.kinds@[i], p.as_bytes),
            ),
        ),
    ) by {
        let r = asked[j] as int;
        assert(column_ok(cols[i]));
        lemma_unit_field(cols, d.width, d.main, n as int, r, i);
        assert(field_holds(p, places, j * itemsize, table[r], order, s.out, i));
    }
    assert forall|j: int, i: int|
        0 <= j < asked.len() && 0 <= i < cols.len() && cols[i].var_kind
        is Some implies s.cells.contains(
        #[trigger] listed_cell(cols, unit(d.main, d.width, asked[j] as int), j as usize, i),
    ) by {
        assert(has_place(pairs, j));
        let t = choose|t: int| 0 <= t < pairs.len() && (#[trigger] pairs[t]).1 == j;
        assert(asked[pairs[t].1 as int] == pairs[t].0);
        law_read_lists_heap_cells(p, places, itemsize, rows, pairs, order, st, t, i);
        assert(rows[t] == unit(d.main, d.width, asked[j] as int));
    }
}

} // verus!
