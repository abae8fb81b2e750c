//! What writes, added rows and assignments do to what a read of a table gives.

use vstd::prelude::*;

use crate::assign::{
    ColumnWrite, cell_written, column_set, column_written, last_place, law_last_write_wins,
    law_set_cell, law_set_column, lemma_last_place, rows_set,
};
use crate::bytes::{
    ByteOrder, concat, field_at, lemma_concat_rows, lemma_unit_below, pow256, splice,
};
use crate::cells::unit;
use crate::columns::{
    ColumnView, Letter, ScalingKind, cell_bytes, column_ok, columns_fill, columns_ok,
    lemma_columns_fill, scaling,
};
use crate::encode::{WriteTransform, encoded, source_size, transform_for};
use crate::error::{CellError, TransformError, VarError, WriteError};
use crate::heap::{
    VarView, ascii_text, descriptor_for, first_non_ascii, half_size, law_descriptor_round_trip,
    lemma_descriptor_len,
};
use crate::heaptrip::{exact_cell, given_bytes, given_value, law_heap_cell_reads_back};
use crate::heapwrite::{
    MainColumn, VlaWrite, cell_heap, cells_valid, law_heap_holds_cells, law_main_row_cell,
    main_cell, main_row, main_sources, rows_heap, vla_planned,
};
use crate::input::{
    ArrayInfo, Names, PreparedInput, SourceMeta, StructField, TableInput, array_input, array_lens,
    columns_input, fields_input, prepared_ok, source_ok, table_input,
};
use crate::read::{
    FieldPlace, ReadPlan, RowState, cell_of, field_filled, places_apart, places_fit, plan_fits,
    plan_is, plan_kinds, plan_width, read_plan_of, row_units, rows_of, rows_state,
};
use crate::repack::col_field;
use crate::reshape::given_cell;
use crate::roundtrip::law_written_row_cell;
use crate::runs::{all_pairs, runs_hold};
use crate::shuffle::row_of;
use crate::strips::{cell_for, column_error, row_for, rows_for, source_value, strip_error};
use crate::table::{
    CellView, TableData, cell_view, law_kept_cell, law_read_gives_cells, law_value_reads_back,
    lemma_rows_field, listed_cell, plain_value, table_cell, transform_fits, value_back,
};
use crate::vla::{
    VarInput, VlaCellPlan, bytes_at, count_at, offset_at, plans_hold, var_bytes, var_count,
    var_input_ok,
};

verus! {

// Reading with the defaults ------------------------------------------------

/// How columns are scaled by default.
pub open spec fn default_kinds(cols: Seq<ColumnView>) -> Seq<ScalingKind> {
    Seq::new(cols.len(), |i: int| scaling(cols[i].letter, cols[i].tscal, cols[i].tzero)->0)
}

/// What a read with the defaults, on a little-endian host, gives of the cell of
/// column `i` in row `r`.
pub open spec fn reads(cols: Seq<ColumnView>, d: TableData, r: int, i: int) -> Result<
    CellView,
    CellError,
> {
    table_cell(cols, default_kinds(cols), false, d, ByteOrder::Little, r, i)
}

/// Whether data are those of `n` rows of the columns of a table.
pub open spec fn data_ok(cols: Seq<ColumnView>, d: TableData, n: int) -> bool {
    &&& columns_fill(cols, d.width)
    &&& 0 <= n
    &&& d.main.len() == n * d.width
}

/// What a read gives of column `i` of a row that stands alone.
pub open spec fn row_cell(cols: Seq<ColumnView>, row: Seq<u8>, heap: Seq<u8>, i: int) -> Result<
    CellView,
    CellError,
> {
    cell_view(
        cols[i],
        default_kinds(cols)[i],
        false,
        cell_of(cols[i], row),
        heap,
        ByteOrder::Little,
    )
}

/// Whether a row reads as the given cells.
pub open spec fn row_reads(
    cols: Seq<ColumnView>,
    width: int,
    row: Seq<u8>,
    heap: Seq<u8>,
    want: Seq<CellView>,
) -> bool {
    &&& row.len() == width
    &&& want.len() == cols.len()
    &&& forall|i: int|
        0 <= i < cols.len() ==> #[trigger] row_cell(cols, row, heap, i) == Ok::<
            CellView,
            CellError,
        >(want[i])
}

// What is given ------------------------------------------------------------

/// The value that is given for column `i` in row `r`: the bytes that its
/// transform takes.
pub open spec fn fixed_value(p: PreparedInput, bufs: Seq<Seq<u8>>, i: int, r: int) -> Seq<u8> {
    source_value(p.metas@[i], bufs, r).take(source_size(p.transforms@[i]))
}

/// The cells of row `r` of what is given for a table without a heap.
pub open spec fn given_row(p: PreparedInput, bufs: Seq<Seq<u8>>, r: int) -> Seq<CellView> {
    Seq::new(
        p.metas@.len(),
        |i: int| CellView::Fixed(value_back(p.transforms@[i], fixed_value(p, bufs, i, r))),
    )
}

/// Whether buffers have the lengths that are said of them.
pub open spec fn lengths_are(bufs: Seq<Seq<u8>>, lens: Seq<usize>) -> bool {
    &&& bufs.len() == lens.len()
    &&& forall|i: int| 0 <= i < bufs.len() ==> (#[trigger] bufs[i]).len() == lens[i]
}

/// The transforms of what is given for a table take values into its columns.
pub proof fn law_input_transforms(
    input: TableInput,
    names: Names,
    cols: Seq<ColumnView>,
    nrows: usize,
)
    requires
        table_input(input, names, cols, nrows) is Ok,
    ensures
        ({
            let ts = table_input(input, names, cols, nrows)->Ok_0.0;
            &&& ts.len() == cols.len()
            &&& forall|i: int| 0 <= i < cols.len() ==> transform_fits(cols[i], #[trigger] ts[i])
        }),
{
    match input {
        TableInput::Dict { keys, arrays } => {
            lemma_columns_transforms(
                crate::input::key_texts(keys@),
                arrays@,
                cols,
                nrows,
                cols.len(),
            );
        },
        TableInput::List { arrays } => match names {
            Names::Texts(n) => {
                lemma_columns_transforms(
                    crate::text::texts(n@),
                    arrays@,
                    cols,
                    nrows,
                    cols.len(),
                );
            },
            _ => {},
        },
        TableInput::Records(s) => {
            lemma_fields_transforms(s.fields->0@, s.itemsize, cols, cols.len());
        },
        TableInput::Other { len } => {},
    }
}

proof fn lemma_columns_transforms(
    names: Seq<Seq<char>>,
    arrays: Seq<ArrayInfo>,
    cols: Seq<ColumnView>,
    nrows: usize,
    k: nat,
)
    requires
        columns_input(names, arrays, cols, nrows, k) is Ok,
    ensures
        ({
            let ts = columns_input(names, arrays, cols, nrows, k)->Ok_0.0;
            &&& ts.len() == k
            &&& forall|i: int| 0 <= i < k ==> transform_fits(cols[i], #[trigger] ts[i])
        }),
    decreases k,
{
    if k > 0 {
        lemma_columns_transforms(names, arrays, cols, nrows, (k - 1) as nat);
        let i = crate::text::first_text(names, cols[k - 1].name)->0;
        let a = arrays[i];
        let (t, size) = array_input(a, cols[k - 1], nrows)->Ok_0;
        assert(transform_for(cols[k - 1], a.kind, a.itemsize) == Ok::<
            WriteTransform,
            TransformError,
        >(t));
    }
}

proof fn lemma_fields_transforms(
    f: Seq<StructField>,
    itemsize: usize,
    cols: Seq<ColumnView>,
    k: nat,
)
    requires
        fields_input(f, itemsize, cols, k) is Ok,
    ensures
        ({
            let ts = fields_input(f, itemsize, cols, k)->Ok_0.0;
            &&& ts.len() == k
            &&& forall|i: int| 0 <= i < k ==> transform_fits(cols[i], #[trigger] ts[i])
        }),
    decreases k,
{
    if k > 0 {
        lemma_fields_transforms(f, itemsize, cols, (k - 1) as nat);
        let field = f[crate::text::first_text(
            crate::input::struct_names(f),
            cols[k - 1].name,
        )->0];
        let t = crate::input::field_input(field, cols[k - 1])->Ok_0;
        assert(transform_for(cols[k - 1], field.kind, field.elem_size) == Ok::<
            WriteTransform,
            TransformError,
        >(t));
    }
}

/// A source has the bytes of each of its rows.
proof fn lemma_source_value(
    t: WriteTransform,
    m: SourceMeta,
    bufs: Seq<Seq<u8>>,
    lens: Seq<usize>,
    nrows: usize,
    r: int,
)
    requires
        source_ok(t, m, lens, nrows),
        lengths_are(bufs, lens),
        0 <= r < nrows,
    ensures
        source_value(m, bufs, r).len() == m.size,
        0 <= source_size(t) <= m.size,
        source_value(m, bufs, r).take(source_size(t)).len() == source_size(t),
        encoded(t, source_value(m, bufs, r)) == encoded(
            t,
            source_value(m, bufs, r).take(source_size(t)),
        ),
{
    lemma_unit_below(r, nrows as int, m.stride as int);
    assert(bufs[m.buffer as int].len() == lens[m.buffer as int]);
    let s = source_value(m, bufs, r);
    crate::encode::lemma_encoded_len(t, s);
    let v = s.take(source_size(t));
    assert(v.take(source_size(t)) =~= v);
}

/// What is given for a row of a table without a heap becomes a row that reads as
/// what was given.
pub proof fn law_given_row_reads(
    p: PreparedInput,
    bufs: Seq<Seq<u8>>,
    lens: Seq<usize>,
    cols: Seq<ColumnView>,
    width: int,
    row_width: usize,
    heap: Seq<u8>,
    nrows: usize,
    r: int,
)
    requires
        columns_ok(cols, width),
        prepared_ok(p, cols, lens, nrows, row_width),
        lengths_are(bufs, lens),
        0 <= r < nrows,
        forall|i: int|
            0 <= i < cols.len() ==> (#[trigger] cols[i]).var_kind is None && transform_fits(
                cols[i],
                p.transforms@[i],
            ) && plain_value(cols[i], p.transforms@[i], fixed_value(p, bufs, i, r)),
    ensures
        forall|i: int| 0 <= i < cols.len() ==> (#[trigger] cell_for(p, bufs, i, r)) is Ok,
        row_reads(cols, width, row_for(p, bufs, r), heap, given_row(p, bufs, r)),
{
    let row = row_for(p, bufs, r);
    let want = given_row(p, bufs, r);
    assert forall|i: int| 0 <= i < cols.len() implies (#[trigger] cell_for(p, bufs, i, r)) is Ok
        && cell_for(p, bufs, i, r)->Ok_0.len() == cols[i].byte_width by {
        let c = cols[i];
        let t = p.transforms@[i];
        let m = p.metas@[i];
        lemma_source_value(t, m, bufs, lens, nrows, r);
        law_value_reads_back(c, t, fixed_value(p, bufs, i, r), heap);
    }
    assert forall|i: int| 0 <= i < cols.len() implies #[trigger] row_cell(cols, row, heap, i)
        == Ok::<CellView, CellError>(want[i]) by {
        let c = cols[i];
        let t = p.transforms@[i];
        let m = p.metas@[i];
        lemma_source_value(t, m, bufs, lens, nrows, r);
        law_value_reads_back(c, t, fixed_value(p, bufs, i, r), heap);
        law_written_row_cell(p, bufs, cols, width, r, i);
        assert(cell_for(p, bufs, i, r) is Ok);
    }
    if cols.len() > 0 {
        law_written_row_cell(p, bufs, cols, width, r, 0);
    } else {
        assert(row =~= Seq::<u8>::empty());
    }
}

/// Whether a cell for the heap is one that a read with the defaults gives back:
/// truth values are 0 and 1, and bytes are ASCII.
pub open spec fn plain_cell(c: VarInput, letter: Letter) -> bool {
    &&& exact_cell(c, letter)
    &&& given_bytes(c).len() <= usize::MAX
    &&& c matches VarInput::Bytes(b) ==> first_non_ascii(b@) is None
}

/// What a read with the defaults gives of a cell for the heap: bytes come back
/// as a text, all else as it was given.
pub open spec fn cell_back(c: VarInput, letter: Letter) -> VarView {
    match c {
        VarInput::Bytes(b) => VarView::Text(ascii_text(b@)),
        _ => given_value(c, letter),
    }
}

/// Whether a descriptor can hold a count and an offset.
pub open spec fn descriptor_holds(c: ColumnView, n: int, off: int) -> bool {
    2 * n < pow256(half_size(c.var_kind->0)) && 2 * off < pow256(half_size(c.var_kind->0))
}

/// A cell that stands in the heap at an offset reads through its descriptor as
/// what was given for it.
pub proof fn law_heap_cell_reads(
    c: ColumnView,
    cell: VarInput,
    heap: Seq<u8>,
    off: nat,
)
    requires
        column_ok(c),
        c.var_kind is Some,
        var_input_ok(cell),
        var_count(cell, c.letter) is Ok,
        plain_cell(cell, c.letter),
        var_bytes(cell, c.letter).len() == crate::columns::cell_bytes(
            c.letter,
            var_count(cell, c.letter)->Ok_0 as nat,
        ),
        descriptor_holds(c, var_count(cell, c.letter)->Ok_0 as int, off as int),
        off + var_bytes(cell, c.letter).len() <= heap.len() <= usize::MAX,
        heap.subrange(off as int, (off + var_bytes(cell, c.letter).len()) as int) == var_bytes(
            cell,
            c.letter,
        ),
    ensures
        ({
            let field = descriptor_for(
                c.var_kind->0,
                var_count(cell, c.letter)->Ok_0 as nat,
                off,
            );
            &&& field.len() == c.byte_width
            &&& cell_view(c, ScalingKind::Unscaled, false, field, heap, ByteOrder::Little) == Ok::<
                CellView,
                CellError,
            >(CellView::Heap(cell_back(cell, c.letter)))
        }),
{
    let kind = c.var_kind->0;
    let n = var_count(cell, c.letter)->Ok_0;
    lemma_descriptor_len(kind, n as nat, off);
    law_descriptor_round_trip(kind, n as nat, off);
    law_heap_cell_reads_back(cell, c.letter);
}

/// The cells of row `r` of what is given for a table with a heap.
pub open spec fn given_main_row(
    src: Seq<MainColumn>,
    cols: Seq<ColumnView>,
    cells: Seq<Vec<VarInput>>,
    bufs: Seq<Seq<u8>>,
    r: int,
) -> Seq<CellView> {
    Seq::new(
        cols.len(),
        |i: int|
            match src[i] {
                MainColumn::Fixed { transform, meta } => CellView::Fixed(
                    value_back(
                        transform,
                        source_value(meta, bufs, r).take(source_size(transform)),
                    ),
                ),
                MainColumn::Heap => CellView::Heap(cell_back(cells[i]@[r], cols[i].letter)),
            },
    )
}

/// Whether what is given for column `i` in row `r` of a table with a heap is
/// given back by a read with the defaults.
pub open spec fn plain_main_cell(
    src: Seq<MainColumn>,
    cols: Seq<ColumnView>,
    cells: Seq<Vec<VarInput>>,
    plans: Seq<Vec<VlaCellPlan>>,
    bufs: Seq<Seq<u8>>,
    i: int,
    r: int,
) -> bool {
    match src[i] {
        MainColumn::Fixed { transform, meta } => plain_value(
            cols[i],
            transform,
            source_value(meta, bufs, r).take(source_size(transform)),
        ),
        MainColumn::Heap => default_kinds(cols)[i] is Unscaled && plain_cell(
            cells[i]@[r],
            cols[i].letter,
        ) && descriptor_holds(
            cols[i],
            plans[i]@[r].nelements as int,
            plans[i]@[r].offset as int,
        ),
    }
}

pub proof fn lemma_main_sources(
    arrays: Seq<ArrayInfo>,
    cols: Seq<ColumnView>,
    nrows: usize,
    k: nat,
)
    requires
        main_sources(arrays, cols, nrows, k) is Ok,
    ensures
        ({
            let s = main_sources(arrays, cols, nrows, k)->Ok_0;
            &&& s.len() == k
            &&& forall|i: int|
                0 <= i < k ==> match #[trigger] s[i] {
                    MainColumn::Fixed { transform, meta } => cols[i].var_kind is None
                        && transform_fits(cols[i], transform),
                    MainColumn::Heap => cols[i].var_kind is Some,
                }
        }),
    decreases k,
{
    if k > 0 {
        lemma_main_sources(arrays, cols, nrows, (k - 1) as nat);
        let c = cols[k - 1];
        if c.var_kind is None {
            let a = arrays[k - 1];
            let (t, size) = array_input(a, c, nrows)->Ok_0;
            assert(transform_for(c, a.kind, a.itemsize) == Ok::<WriteTransform, TransformError>(t));
        }
    }
}

/// What is given for a row of a table with a heap becomes a row that reads as
/// what was given. The cells go behind the `kept` bytes of the heap.
pub proof fn law_given_main_row_reads(
    w: VlaWrite,
    cols: Seq<ColumnView>,
    arrays: Seq<ArrayInfo>,
    cells: Seq<Vec<VarInput>>,
    bufs: Seq<Seq<u8>>,
    kept: Seq<u8>,
    width: int,
    nrows: usize,
    r: int,
)
    requires
        columns_ok(cols, width),
        kept.len() + rows_heap(cols, cells, nrows as int).len() <= usize::MAX,
        main_sources(arrays, cols, nrows, cols.len()) == Ok::<Seq<MainColumn>, WriteError>(
            w.sources@,
        ),
        vla_planned(w, w.sources@, cols, arrays, cells, nrows, kept.len() as usize),
        cells_valid(cols, cells, nrows as int),
        lengths_are(bufs, array_lens(arrays)),
        0 <= r < nrows,
        forall|i: int|
            0 <= i < cols.len() ==> #[trigger] plain_main_cell(
                w.sources@,
                cols,
                cells,
                w.plans@,
                bufs,
                i,
                r,
            ),
    ensures
        forall|i: int|
            0 <= i < cols.len() ==> (#[trigger] main_cell(
                w.sources@,
                cols,
                w.plans@,
                bufs,
                i,
                r,
            )) is Ok,
        row_reads(
            cols,
            width,
            main_row(w.sources@, cols, w.plans@, bufs, r),
            kept + rows_heap(cols, cells, nrows as int),
            given_main_row(w.sources@, cols, cells, bufs, r),
        ),
{
    let src = w.sources@;
    let plans = w.plans@;
    let heap = kept + rows_heap(cols, cells, nrows as int);
    let row = main_row(src, cols, plans, bufs, r);
    let want = given_main_row(src, cols, cells, bufs, r);
    lemma_main_sources(arrays, cols, nrows, cols.len());
    assert forall|i: int| 0 <= i < cols.len() implies (#[trigger] main_cell(
        src,
        cols,
        plans,
        bufs,
        i,
        r,
    )) is Ok && main_cell(src, cols, plans, bufs, i, r)->Ok_0.len() == cols[i].byte_width
        && cell_view(
        cols[i],
        default_kinds(cols)[i],
        false,
        main_cell(src, cols, plans, bufs, i, r)->Ok_0,
        heap,
        ByteOrder::Little,
    ) == Ok::<CellView, CellError>(want[i]) by {
        assert(plain_main_cell(src, cols, cells, plans, bufs, i, r));
        lemma_main_cell_reads(w, cols, arrays, cells, bufs, kept, nrows, i, r);
    }
    assert forall|i: int| 0 <= i < cols.len() implies #[trigger] row_cell(cols, row, heap, i)
        == Ok::<CellView, CellError>(want[i]) by {
        assert(main_cell(src, cols, plans, bufs, i, r) is Ok);
        law_main_row_cell(src, cols, plans, bufs, width, r, i);
    }
    if cols.len() > 0 {
        law_main_row_cell(src, cols, plans, bufs, width, r, 0);
    } else {
        assert(row =~= Seq::<u8>::empty());
    }
}

proof fn lemma_main_cell_reads(
    w: VlaWrite,
    cols: Seq<ColumnView>,
    arrays: Seq<ArrayInfo>,
    cells: Seq<Vec<VarInput>>,
    bufs: Seq<Seq<u8>>,
    kept: Seq<u8>,
    nrows: usize,
    i: int,
    r: int,
)
    requires
        0 <= i < cols.len(),
        column_ok(cols[i]),
        kept.len() + rows_heap(cols, cells, nrows as int).len() <= usize::MAX,
        main_sources(arrays, cols, nrows, cols.len()) == Ok::<Seq<MainColumn>, WriteError>(
            w.sources@,
        ),
        vla_planned(w, w.sources@, cols, arrays, cells, nrows, kept.len() as usize),
        cells_valid(cols, cells, nrows as int),
        lengths_are(bufs, array_lens(arrays)),
        0 <= r < nrows,
        plain_main_cell(w.sources@, cols, cells, w.plans@, bufs, i, r),
    ensures
        ({
            let cell = main_cell(w.sources@, cols, w.plans@, bufs, i, r);
            &&& cell is Ok
            &&& cell->Ok_0.len() == cols[i].byte_width
            &&& cell_view(
                cols[i],
                default_kinds(cols)[i],
                false,
                cell->Ok_0,
                kept + rows_heap(cols, cells, nrows as int),
                ByteOrder::Little,
            ) == Ok::<CellView, CellError>(
                given_main_row(w.sources@, cols, cells, bufs, r)[i],
            )
        }),
{
    let c = cols[i];
    let n = nrows as int;
    let all = rows_heap(cols, cells, n);
    let heap = kept + all;
    lemma_main_sources(arrays, cols, nrows, cols.len());
    match w.sources@[i] {
        MainColumn::Fixed { transform, meta } => {
            lemma_source_value(transform, meta, bufs, array_lens(arrays), nrows, r);
            law_value_reads_back(
                c,
                transform,
                source_value(meta, bufs, r).take(source_size(transform)),
                heap,
            );
        },
        MainColumn::Heap => {
            let cell = cells[i]@[r];
            let plan = w.plans@[i]@[r];
            assert(plans_hold(cols, cells, kept.len() as int, w.plans@[i]@, i, n));
            assert(count_at(cols, cells, i, r) == Ok::<usize, VarError>(plan.nelements));
            law_heap_holds_cells(cols, cells, n, i, r);
            let at = offset_at(cols, cells, 0, r, i);
            let len = bytes_at(cols, cells, i, r);
            assert(cell_heap(cols, cells, i, r) == var_bytes(cell, c.letter));
            assert(plan.offset == kept.len() + at);
            assert(heap.subrange(kept.len() + at, kept.len() + at + len) =~= all.subrange(
                at,
                at + len,
            ));
            assert(var_input_ok(cell)) by {
                assert(cells[i]@.len() >= n);
            }
            law_heap_cell_reads(c, cell, heap, plan.offset as nat);
        },
    }
}

// Tables -------------------------------------------------------------------

/// Rows that stand one behind the other are a table that reads as they do.
pub proof fn law_rows_read(
    cols: Seq<ColumnView>,
    width: int,
    rows: Seq<Seq<u8>>,
    heap: Seq<u8>,
    wants: Seq<Seq<CellView>>,
)
    requires
        columns_fill(cols, width),
        wants.len() == rows.len(),
        forall|r: int|
            0 <= r < rows.len() ==> row_reads(cols, width, #[trigger] rows[r], heap, wants[r]),
    ensures
        ({
            let d = TableData { width, main: concat(rows), heap };
            &&& data_ok(cols, d, rows.len() as int)
            &&& forall|r: int, i: int|
                0 <= r < rows.len() && 0 <= i < cols.len() ==> #[trigger] reads(cols, d, r, i)
                    == Ok::<CellView, CellError>(wants[r][i])
        }),
{
    let d = TableData { width, main: concat(rows), heap };
    lemma_columns_fill(cols, width);
    assert forall|k: int| 0 <= k < rows.len() implies (#[trigger] rows[k]).len() == width by {
        assert(row_reads(cols, width, rows[k], heap, wants[k]));
    }
    crate::bytes::lemma_concat_rows(rows, width);
    assert forall|r: int, i: int| 0 <= r < rows.len() && 0 <= i < cols.len() implies #[trigger] reads(
        cols,
        d,
        r,
        i,
    ) == Ok::<CellView, CellError>(wants[r][i]) by {
        assert(row_reads(cols, width, rows[r], heap, wants[r]));
        lemma_rows_field(cols, width, rows, r, i);
        assert(row_cell(cols, rows[r], heap, i) == Ok::<CellView, CellError>(wants[r][i]));
    }
}

/// Whether a cell is one that can be counted on to read as before: it stands in
/// the rows, or it can be read.
pub open spec fn readable(cols: Seq<ColumnView>, d: TableData, r: int, i: int) -> bool {
    cols[i].var_kind is None || reads(cols, d, r, i) is Ok
}

/// Rows that are added read as they do, and every other cell as before. The heap
/// is only added to.
pub proof fn law_added_rows_read(
    cols: Seq<ColumnView>,
    d: TableData,
    n: int,
    rows: Seq<Seq<u8>>,
    more: Seq<u8>,
    wants: Seq<Seq<CellView>>,
)
    requires
        data_ok(cols, d, n),
        wants.len() == rows.len(),
        forall|k: int|
            0 <= k < rows.len() ==> row_reads(
                cols,
                d.width,
                #[trigger] rows[k],
                d.heap + more,
                wants[k],
            ),
    ensures
        ({
            let after = TableData {
                width: d.width,
                main: d.main + concat(rows),
                heap: d.heap + more,
            };
            &&& data_ok(cols, after, n + rows.len())
            &&& forall|r: int, i: int|
                0 <= r < n && 0 <= i < cols.len() && readable(cols, d, r, i) ==> #[trigger] reads(
                    cols,
                    after,
                    r,
                    i,
                ) == reads(cols, d, r, i)
            &&& forall|r: int, i: int|
                n <= r < n + rows.len() && 0 <= i < cols.len() ==> #[trigger] reads(
                    cols,
                    after,
                    r,
                    i,
                ) == Ok::<CellView, CellError>(wants[r - n][i])
        }),
{
    let w = d.width;
    let new = concat(rows);
    let heap = d.heap + more;
    let after = TableData { width: w, main: d.main + new, heap };
    lemma_columns_fill(cols, w);
    law_rows_read(cols, w, rows, heap, wants);
    let part = TableData { width: w, main: new, heap };
    assert((n + rows.len()) * w == n * w + rows.len() * w) by (nonlinear_arith);
    assert forall|r: int, i: int|
        0 <= r < n && 0 <= i < cols.len() && readable(cols, d, r, i) implies #[trigger] reads(
        cols,
        after,
        r,
        i,
    ) == reads(cols, d, r, i) by {
        lemma_unit_below(r, n, w);
        let field = col_field(cols, d.main, w, r, i);
        assert(col_field(cols, after.main, w, r, i) =~= field);
        law_kept_cell(
            cols[i],
            default_kinds(cols)[i],
            false,
            field,
            d.heap,
            more,
            ByteOrder::Little,
        );
    }
    assert forall|r: int, i: int|
        n <= r < n + rows.len() && 0 <= i < cols.len() implies #[trigger] reads(cols, after, r, i)
        == Ok::<CellView, CellError>(wants[r - n][i]) by {
        let k = r - n;
        lemma_unit_below(k, rows.len() as int, w);
        assert(r * w == n * w + k * w) by (nonlinear_arith)
            requires
                r == n + k,
        ;
        assert(col_field(cols, after.main, w, r, i) =~= col_field(cols, new, w, k, i));
        assert(reads(cols, part, k, i) == Ok::<CellView, CellError>(wants[k][i]));
    }
}

/// Rows that are overwritten read as what was given for them last, and every
/// other cell as before. The heap is only added to.
pub proof fn law_set_rows_read(
    cols: Seq<ColumnView>,
    d: TableData,
    n: int,
    rows: Seq<usize>,
    values: Seq<Seq<u8>>,
    more: Seq<u8>,
    wants: Seq<Seq<CellView>>,
)
    requires
        data_ok(cols, d, n),
        rows.len() == values.len() == wants.len(),
        forall|k: int| 0 <= k < rows.len() ==> rows[k] < n,
        forall|k: int|
            0 <= k < values.len() ==> row_reads(
                cols,
                d.width,
                #[trigger] values[k],
                d.heap + more,
                wants[k],
            ),
    ensures
        ({
            let after = TableData {
                width: d.width,
                main: rows_set(d.main, 0, d.width, rows, values),
                heap: d.heap + more,
            };
            &&& data_ok(cols, after, n)
            &&& forall|r: int, i: int|
                0 <= r < n && 0 <= i < cols.len() ==> match last_place(rows, r) {
                    Some(k) => #[trigger] reads(cols, after, r, i) == Ok::<CellView, CellError>(
                        wants[k][i],
                    ),
                    None => readable(cols, d, r, i) ==> reads(cols, after, r, i) == reads(
                        cols,
                        d,
                        r,
                        i,
                    ),
                }
        }),
{
    let w = d.width;
    let heap = d.heap + more;
    let main = rows_set(d.main, 0, w, rows, values);
    let after = TableData { width: w, main, heap };
    lemma_columns_fill(cols, w);
    assert forall|k: int| 0 <= k < values.len() implies (#[trigger] values[k]).len() == w by {
        assert(row_reads(cols, w, values[k], heap, wants[k]));
    }
    law_last_write_wins(d.main, 0, w, n, rows, values);
    assert forall|r: int, i: int| 0 <= r < n && 0 <= i < cols.len() implies match last_place(
        rows,
        r,
    ) {
        Some(k) => #[trigger] reads(cols, after, r, i) == Ok::<CellView, CellError>(wants[k][i]),
        None => readable(cols, d, r, i) ==> reads(cols, after, r, i) == reads(cols, d, r, i),
    } by {
        lemma_unit_below(r, n, w);
        lemma_last_place(rows, r);
        let c = cols[i];
        assert(col_field(cols, main, w, r, i) =~= cell_of(c, row_of(main, 0, w, r)));
        match last_place(rows, r) {
            Some(k) => {
                assert(row_of(main, 0, w, r) == values[k]);
                assert(row_reads(cols, w, values[k], heap, wants[k]));
                assert(row_cell(cols, values[k], heap, i) == Ok::<CellView, CellError>(
                    wants[k][i],
                ));
            },
            None => {
                assert(row_of(main, 0, w, r) == row_of(d.main, 0, w, r));
                let field = col_field(cols, d.main, w, r, i);
                assert(field =~= cell_of(c, row_of(d.main, 0, w, r)));
                if readable(cols, d, r, i) {
                    law_kept_cell(
                        c,
                        default_kinds(cols)[i],
                        false,
                        field,
                        d.heap,
                        more,
                        ByteOrder::Little,
                    );
                }
            },
        }
    }
}

/// Whether a cell of a column, in the row or as a descriptor, reads as a value.
pub open spec fn field_reads(
    cols: Seq<ColumnView>,
    i: int,
    field: Seq<u8>,
    heap: Seq<u8>,
    want: CellView,
) -> bool {
    &&& field.len() == cols[i].byte_width
    &&& cell_view(cols[i], default_kinds(cols)[i], false, field, heap, ByteOrder::Little) == Ok::<
        CellView,
        CellError,
    >(want)
}

/// A cell that is overwritten reads as what was given for it, and every other
/// cell as before. The heap is only added to.
pub proof fn law_set_cell_reads(
    cols: Seq<ColumnView>,
    d: TableData,
    n: int,
    r: int,
    i: int,
    cell: Seq<u8>,
    more: Seq<u8>,
    want: CellView,
)
    requires
        data_ok(cols, d, n),
        0 <= r < n,
        0 <= i < cols.len(),
        field_reads(cols, i, cell, d.heap + more, want),
    ensures
        ({
            let after = TableData {
                width: d.width,
                main: splice(d.main, r * d.width + cols[i].byte_offset, cell),
                heap: d.heap + more,
            };
            &&& data_ok(cols, after, n)
            &&& reads(cols, after, r, i) == Ok::<CellView, CellError>(want)
            &&& forall|q: int, j: int|
                0 <= q < n && 0 <= j < cols.len() && !(q == r && j == i) && readable(
                    cols,
                    d,
                    q,
                    j,
                ) ==> #[trigger] reads(cols, after, q, j) == reads(cols, d, q, j)
        }),
{
    let w = d.width;
    let main = splice(d.main, r * w + cols[i].byte_offset, cell);
    let after = TableData { width: w, main, heap: d.heap + more };
    law_set_cell(cols, d.main, w, n, r, i, cell, r, i);
    assert forall|q: int, j: int|
        0 <= q < n && 0 <= j < cols.len() && !(q == r && j == i) && readable(
            cols,
            d,
            q,
            j,
        ) implies #[trigger] reads(cols, after, q, j) == reads(cols, d, q, j) by {
        law_set_cell(cols, d.main, w, n, r, i, cell, q, j);
        law_kept_cell(
            cols[j],
            default_kinds(cols)[j],
            false,
            col_field(cols, d.main, w, q, j),
            d.heap,
            more,
            ByteOrder::Little,
        );
    }
}

/// A column that is overwritten reads as what was given for it, and every cell of
/// the others as before. The heap is only added to.
pub proof fn law_set_column_reads(
    cols: Seq<ColumnView>,
    d: TableData,
    n: int,
    i: int,
    cells: Seq<Seq<u8>>,
    more: Seq<u8>,
    wants: Seq<CellView>,
)
    requires
        data_ok(cols, d, n),
        0 <= i < cols.len(),
        cells.len() == n,
        wants.len() == n,
        forall|r: int|
            0 <= r < n ==> field_reads(cols, i, #[trigger] cells[r], d.heap + more, wants[r]),
    ensures
        ({
            let after = TableData {
                width: d.width,
                main: column_set(d.main, d.width, cols[i].byte_offset as int, cells, n as nat),
                heap: d.heap + more,
            };
            &&& data_ok(cols, after, n)
            &&& forall|r: int|
                0 <= r < n ==> #[trigger] reads(cols, after, r, i) == Ok::<CellView, CellError>(
                    wants[r],
                )
            &&& forall|r: int, j: int|
                0 <= r < n && 0 <= j < cols.len() && j != i && readable(cols, d, r, j)
                    ==> #[trigger] reads(cols, after, r, j) == reads(cols, d, r, j)
        }),
{
    let w = d.width;
    let main = column_set(d.main, w, cols[i].byte_offset as int, cells, n as nat);
    let after = TableData { width: w, main, heap: d.heap + more };
    assert forall|r: int| 0 <= r < n implies (#[trigger] cells[r]).len() == cols[i].byte_width by {
        assert(field_reads(cols, i, cells[r], d.heap + more, wants[r]));
    }
    lemma_column_set_len(d.main, w, cols[i].byte_offset as int, cells, n as nat);
    assert forall|r: int| 0 <= r < n implies #[trigger] reads(cols, after, r, i) == Ok::<
        CellView,
        CellError,
    >(wants[r]) by {
        law_set_column(cols, d.main, w, n, i, cells, n as nat, r, i);
        assert(field_reads(cols, i, cells[r], d.heap + more, wants[r]));
    }
    assert forall|r: int, j: int|
        0 <= r < n && 0 <= j < cols.len() && j != i && readable(
            cols,
            d,
            r,
            j,
        ) implies #[trigger] reads(cols, after, r, j) == reads(cols, d, r, j) by {
        law_set_column(cols, d.main, w, n, i, cells, n as nat, r, j);
        law_kept_cell(
            cols[j],
            default_kinds(cols)[j],
            false,
            col_field(cols, d.main, w, r, j),
            d.heap,
            more,
            ByteOrder::Little,
        );
    }
}

proof fn lemma_column_set_len(
    main: Seq<u8>,
    rw: int,
    off: int,
    cells: Seq<Seq<u8>>,
    k: nat,
)
    ensures
        column_set(main, rw, off, cells, k).len() == main.len(),
    decreases k,
{
    if k > 0 {
        lemma_column_set_len(main, rw, off, cells, (k - 1) as nat);
    }
}

// Calls --------------------------------------------------------------------

/// Whether all that is given for a table without a heap is given back by a read
/// with the defaults.
pub open spec fn plain_input(
    p: PreparedInput,
    bufs: Seq<Seq<u8>>,
    cols: Seq<ColumnView>,
    nrows: usize,
) -> bool {
    forall|r: int, i: int|
        0 <= r < nrows && 0 <= i < cols.len() ==> plain_value(
            cols[i],
            p.transforms@[i],
            #[trigger] fixed_value(p, bufs, i, r),
        )
}

/// Whether what is given is for a table without a heap, and was found to fit it.
pub open spec fn taken_input(
    p: PreparedInput,
    bufs: Seq<Seq<u8>>,
    lens: Seq<usize>,
    cols: Seq<ColumnView>,
    width: int,
    nrows: usize,
) -> bool {
    &&& columns_ok(cols, width)
    &&& 0 <= width <= usize::MAX
    &&& prepared_ok(p, cols, lens, nrows, width as usize)
    &&& lengths_are(bufs, lens)
    &&& forall|i: int|
        0 <= i < cols.len() ==> (#[trigger] cols[i]).var_kind is None && transform_fits(
            cols[i],
            p.transforms@[i],
        )
}

/// The rows of what is given for a table without a heap.
pub open spec fn rows_given(p: PreparedInput, bufs: Seq<Seq<u8>>, n: nat) -> Seq<Seq<u8>> {
    Seq::new(n, |r: int| row_for(p, bufs, r))
}

/// The cells of what is given for a table without a heap.
pub open spec fn cells_given(p: PreparedInput, bufs: Seq<Seq<u8>>, n: nat) -> Seq<
    Seq<CellView>,
> {
    Seq::new(n, |r: int| given_row(p, bufs, r))
}

proof fn lemma_taken_rows(
    p: PreparedInput,
    bufs: Seq<Seq<u8>>,
    lens: Seq<usize>,
    cols: Seq<ColumnView>,
    width: int,
    heap: Seq<u8>,
    nrows: usize,
)
    requires
        taken_input(p, bufs, lens, cols, width, nrows),
        plain_input(p, bufs, cols, nrows),
    ensures
        forall|r: int, i: int|
            0 <= r < nrows && 0 <= i < cols.len() ==> (#[trigger] cell_for(p, bufs, i, r)) is Ok,
        forall|r: int|
            0 <= r < nrows ==> row_reads(
                cols,
                width,
                #[trigger] rows_given(p, bufs, nrows as nat)[r],
                heap,
                cells_given(p, bufs, nrows as nat)[r],
            ),
{
    assert forall|r: int| 0 <= r < nrows implies row_reads(
        cols,
        width,
        #[trigger] rows_given(p, bufs, nrows as nat)[r],
        heap,
        cells_given(p, bufs, nrows as nat)[r],
    ) by {
        lemma_taken_row(p, bufs, lens, cols, width, heap, nrows, r);
    }
    assert forall|r: int, i: int| 0 <= r < nrows && 0 <= i < cols.len() implies (
    #[trigger] cell_for(p, bufs, i, r)) is Ok by {
        lemma_taken_row(p, bufs, lens, cols, width, heap, nrows, r);
    }
}

proof fn lemma_taken_row(
    p: PreparedInput,
    bufs: Seq<Seq<u8>>,
    lens: Seq<usize>,
    cols: Seq<ColumnView>,
    width: int,
    heap: Seq<u8>,
    nrows: usize,
    r: int,
)
    requires
        taken_input(p, bufs, lens, cols, width, nrows),
        plain_input(p, bufs, cols, nrows),
        0 <= r < nrows,
    ensures
        forall|i: int| 0 <= i < cols.len() ==> (#[trigger] cell_for(p, bufs, i, r)) is Ok,
        row_reads(cols, width, row_for(p, bufs, r), heap, given_row(p, bufs, r)),
{
    assert forall|i: int| 0 <= i < cols.len() implies (#[trigger] cols[i]).var_kind is None
        && transform_fits(cols[i], p.transforms@[i]) && plain_value(
        cols[i],
        p.transforms@[i],
        fixed_value(p, bufs, i, r),
    ) by {
        let v = fixed_value(p, bufs, i, r);
    }
    law_given_row_reads(p, bufs, lens, cols, width, width as usize, heap, nrows, r);
}

proof fn lemma_no_column_error(p: PreparedInput, bufs: Seq<Seq<u8>>, i: int, from: int, n: nat)
    requires
        forall|r: int| from <= r < from + n ==> (#[trigger] cell_for(p, bufs, i, r)) is Ok,
    ensures
        column_error(p, bufs, i, from, n) is None,
    decreases n,
{
    if n > 0 {
        lemma_no_column_error(p, bufs, i, from, (n - 1) as nat);
        assert(cell_for(p, bufs, i, from + n - 1) is Ok);
    }
}

proof fn lemma_no_strip_error(p: PreparedInput, bufs: Seq<Seq<u8>>, k: nat, from: int, n: nat)
    requires
        forall|r: int, i: int|
            from <= r < from + n && 0 <= i < k ==> (#[trigger] cell_for(p, bufs, i, r)) is Ok,
    ensures
        strip_error(p, bufs, k, from, n) is None,
    decreases k,
{
    if k > 0 {
        lemma_no_strip_error(p, bufs, (k - 1) as nat, from, n);
        lemma_no_column_error(p, bufs, k - 1, from, n);
    }
}

/// A table without a heap that is written reads as what was given, and nothing
/// stands in the way of writing it.
pub proof fn law_write_then_read_table(
    p: PreparedInput,
    bufs: Seq<Seq<u8>>,
    lens: Seq<usize>,
    cols: Seq<ColumnView>,
    width: int,
    heap: Seq<u8>,
    nrows: usize,
)
    requires
        taken_input(p, bufs, lens, cols, width, nrows),
        plain_input(p, bufs, cols, nrows),
    ensures
        strip_error(p, bufs, cols.len(), 0, nrows as nat) is None,
        ({
            let d = TableData { width, main: rows_for(p, bufs, 0, nrows as nat), heap };
            &&& data_ok(cols, d, nrows as int)
            &&& forall|r: int, i: int|
                0 <= r < nrows && 0 <= i < cols.len() ==> #[trigger] reads(cols, d, r, i) == Ok::<
                    CellView,
                    CellError,
                >(given_row(p, bufs, r)[i])
        }),
{
    let n = nrows as nat;
    let rows = rows_given(p, bufs, n);
    let wants = cells_given(p, bufs, n);
    lemma_taken_rows(p, bufs, lens, cols, width, heap, nrows);
    lemma_no_strip_error(p, bufs, cols.len(), 0, n);
    law_rows_read(cols, width, rows, heap, wants);
    assert(Seq::new(n, |r: int| row_for(p, bufs, 0 + r)) =~= rows);
    assert(rows_for(p, bufs, 0, n) == concat(rows));
    assert forall|r: int, i: int| 0 <= r < nrows && 0 <= i < cols.len() implies #[trigger] reads(
        cols,
        TableData { width, main: rows_for(p, bufs, 0, n), heap },
        r,
        i,
    ) == Ok::<CellView, CellError>(given_row(p, bufs, r)[i]) by {
        assert(wants[r] == given_row(p, bufs, r));
    }
}

/// Rows that are added to a table without a heap read as what was given, and the
/// others as before.
pub proof fn law_append_then_read_table(
    p: PreparedInput,
    bufs: Seq<Seq<u8>>,
    lens: Seq<usize>,
    cols: Seq<ColumnView>,
    d: TableData,
    n: int,
    added: usize,
)
    requires
        taken_input(p, bufs, lens, cols, d.width, added),
        plain_input(p, bufs, cols, added),
        data_ok(cols, d, n),
    ensures
        strip_error(p, bufs, cols.len(), 0, added as nat) is None,
        ({
            let after = TableData {
                width: d.width,
                main: d.main + rows_for(p, bufs, 0, added as nat),
                heap: d.heap,
            };
            &&& data_ok(cols, after, n + added)
            &&& forall|r: int, i: int|
                0 <= r < n + added && 0 <= i < cols.len() ==> #[trigger] reads(cols, after, r, i)
                    == if r < n {
                    reads(cols, d, r, i)
                } else {
                    Ok::<CellView, CellError>(given_row(p, bufs, r - n)[i])
                }
        }),
{
    let k = added as nat;
    let rows = rows_given(p, bufs, k);
    let wants = cells_given(p, bufs, k);
    let none = Seq::<u8>::empty();
    assert(d.heap + none =~= d.heap);
    lemma_taken_rows(p, bufs, lens, cols, d.width, d.heap, added);
    lemma_no_strip_error(p, bufs, cols.len(), 0, k);
    law_added_rows_read(cols, d, n, rows, none, wants);
    assert(Seq::new(k, |r: int| row_for(p, bufs, 0 + r)) =~= rows);
    assert forall|r: int, i: int| 0 <= r < n + added && 0 <= i < cols.len() implies #[trigger] reads(
        cols,
        TableData { width: d.width, main: d.main + rows_for(p, bufs, 0, k), heap: d.heap },
        r,
        i,
    ) == if r < n {
        reads(cols, d, r, i)
    } else {
        Ok::<CellView, CellError>(given_row(p, bufs, r - n)[i])
    } by {
        if r < n {
            assert(cols[i].var_kind is None);
            assert(readable(cols, d, r, i));
        } else {
            assert(wants[r - n] == given_row(p, bufs, r - n));
        }
    }
}

/// Rows of a table without a heap that are overwritten read as what was given for
/// them last, and the others as before. `rows` are the rows, in the order of what
/// is given for them.
pub proof fn law_assign_rows_then_read(
    p: PreparedInput,
    bufs: Seq<Seq<u8>>,
    lens: Seq<usize>,
    cols: Seq<ColumnView>,
    d: TableData,
    n: int,
    rows: Seq<usize>,
)
    requires
        rows.len() <= usize::MAX,
        taken_input(p, bufs, lens, cols, d.width, rows.len() as usize),
        plain_input(p, bufs, cols, rows.len() as usize),
        data_ok(cols, d, n),
        forall|k: int| 0 <= k < rows.len() ==> rows[k] < n,
    ensures
        strip_error(p, bufs, cols.len(), 0, rows.len()) is None,
        ({
            let after = TableData {
                width: d.width,
                main: rows_set(d.main, 0, d.width, rows, rows_given(p, bufs, rows.len())),
                heap: d.heap,
            };
            &&& data_ok(cols, after, n)
            &&& forall|r: int, i: int|
                0 <= r < n && 0 <= i < cols.len() ==> #[trigger] reads(cols, after, r, i) == (
                match last_place(rows, r) {
                    Some(k) => Ok::<CellView, CellError>(given_row(p, bufs, k)[i]),
                    None => reads(cols, d, r, i),
                })
        }),
{
    let k = rows.len();
    let values = rows_given(p, bufs, k);
    let wants = cells_given(p, bufs, k);
    let none = Seq::<u8>::empty();
    assert(d.heap + none =~= d.heap);
    lemma_taken_rows(p, bufs, lens, cols, d.width, d.heap, k as usize);
    lemma_no_strip_error(p, bufs, cols.len(), 0, k);
    law_set_rows_read(cols, d, n, rows, values, none, wants);
    let after = TableData {
        width: d.width,
        main: rows_set(d.main, 0, d.width, rows, values),
        heap: d.heap,
    };
    assert forall|r: int, i: int| 0 <= r < n && 0 <= i < cols.len() implies #[trigger] reads(
        cols,
        after,
        r,
        i,
    ) == (match last_place(rows, r) {
        Some(k) => Ok::<CellView, CellError>(given_row(p, bufs, k)[i]),
        None => reads(cols, d, r, i),
    }) by {
        assert(cols[i].var_kind is None);
        assert(readable(cols, d, r, i));
        lemma_last_place(rows, r);
        match last_place(rows, r) {
            Some(q) => {
                assert(wants[q] == given_row(p, bufs, q));
            },
            None => {},
        }
    }
}

/// A column of fixed-width values that is overwritten reads as what was given for
/// it, and every cell of the others as before.
pub proof fn law_assign_column_then_read(
    cols: Seq<ColumnView>,
    d: TableData,
    nrows: usize,
    i: int,
    a: ArrayInfo,
    buf: Seq<u8>,
    t: WriteTransform,
    size: usize,
)
    requires
        columns_ok(cols, d.width),
        data_ok(cols, d, nrows as int),
        0 <= i < cols.len(),
        i <= usize::MAX,
        column_written(cols, Some(i), a, nrows) == Ok::<ColumnWrite, crate::error::AssignError>(
            ColumnWrite::Fixed { column: i as usize, transform: t, size },
        ),
        source_size(t) <= size,
        nrows * size <= buf.len(),
        forall|r: int|
            0 <= r < nrows ==> plain_value(
                cols[i],
                t,
                (#[trigger] field_at(buf, size as int, r, 0, size as int)).take(source_size(t)),
            ),
    ensures
        forall|r: int| 0 <= r < nrows ==> (#[trigger] given_cell(t, buf, size as int, r)) is Ok,
        ({
            let cells = Seq::new(
                nrows as nat,
                |r: int| given_cell(t, buf, size as int, r)->Ok_0,
            );
            let after = TableData {
                width: d.width,
                main: column_set(
                    d.main,
                    d.width,
                    cols[i].byte_offset as int,
                    cells,
                    nrows as nat,
                ),
                heap: d.heap,
            };
            &&& data_ok(cols, after, nrows as int)
            &&& forall|r: int|
                0 <= r < nrows ==> #[trigger] reads(cols, after, r, i) == Ok::<CellView, CellError>(
                    CellView::Fixed(
                        value_back(
                            t,
                            field_at(buf, size as int, r, 0, size as int).take(source_size(t)),
                        ),
                    ),
                )
            &&& forall|r: int, j: int|
                0 <= r < nrows && 0 <= j < cols.len() && j != i && readable(cols, d, r, j)
                    ==> #[trigger] reads(cols, after, r, j) == reads(cols, d, r, j)
        }),
{
    let c = cols[i];
    let n = nrows as int;
    let sz = size as int;
    assert(column_ok(c));
    assert(transform_for(c, a.kind, a.itemsize) == Ok::<WriteTransform, TransformError>(t));
    crate::encode::lemma_transform_width(c, a.kind, a.itemsize);
    let none = Seq::<u8>::empty();
    assert(d.heap + none =~= d.heap);
    let cells = Seq::new(nrows as nat, |r: int| given_cell(t, buf, sz, r)->Ok_0);
    let wants = Seq::new(
        nrows as nat,
        |r: int| CellView::Fixed(value_back(t, field_at(buf, sz, r, 0, sz).take(source_size(t)))),
    );
    assert forall|r: int| 0 <= r < n implies (#[trigger] given_cell(t, buf, sz, r)) is Ok
        && field_reads(cols, i, given_cell(t, buf, sz, r)->Ok_0, d.heap, wants[r]) by {
        lemma_unit_below(r, n, sz);
        let s = field_at(buf, sz, r, 0, sz);
        crate::encode::lemma_encoded_len(t, s);
        let v = s.take(source_size(t));
        assert(v.take(source_size(t)) =~= v);
        law_value_reads_back(c, t, v, d.heap);
    }
    assert forall|r: int| 0 <= r < n implies field_reads(
        cols,
        i,
        #[trigger] cells[r],
        d.heap + none,
        wants[r],
    ) by {
        assert(given_cell(t, buf, sz, r) is Ok);
    }
    law_set_column_reads(cols, d, n, i, cells, none, wants);
}

/// A cell of fixed width that is overwritten reads as what was given for it, and
/// every other cell as before.
pub proof fn law_assign_cell_then_read(
    cols: Seq<ColumnView>,
    d: TableData,
    n: int,
    r: int,
    i: int,
    a: ArrayInfo,
    buf: Seq<u8>,
)
    requires
        columns_ok(cols, d.width),
        data_ok(cols, d, n),
        0 <= r < n,
        0 <= i < cols.len(),
        cols[i].var_kind is None,
        cell_written(cols[i], a, buf) is Ok,
        source_size(array_input(a, cols[i], 1)->Ok_0.0) <= buf.len(),
        plain_value(
            cols[i],
            array_input(a, cols[i], 1)->Ok_0.0,
            buf.take(source_size(array_input(a, cols[i], 1)->Ok_0.0)),
        ),
    ensures
        ({
            let t = array_input(a, cols[i], 1)->Ok_0.0;
            let after = TableData {
                width: d.width,
                main: splice(
                    d.main,
                    r * d.width + cols[i].byte_offset,
                    cell_written(cols[i], a, buf)->Ok_0,
                ),
                heap: d.heap,
            };
            &&& data_ok(cols, after, n)
            &&& reads(cols, after, r, i) == Ok::<CellView, CellError>(
                CellView::Fixed(value_back(t, buf.take(source_size(t)))),
            )
            &&& forall|q: int, j: int|
                0 <= q < n && 0 <= j < cols.len() && !(q == r && j == i) && readable(
                    cols,
                    d,
                    q,
                    j,
                ) ==> #[trigger] reads(cols, after, q, j) == reads(cols, d, q, j)
        }),
{
    let c = cols[i];
    let (t, size) = array_input(a, c, 1)->Ok_0;
    assert(column_ok(c));
    assert(transform_for(c, a.kind, a.itemsize) == Ok::<WriteTransform, TransformError>(t));
    crate::encode::lemma_transform_width(c, a.kind, a.itemsize);
    crate::encode::lemma_encoded_len(t, buf);
    let v = buf.take(source_size(t));
    assert(v.take(source_size(t)) =~= v);
    let none = Seq::<u8>::empty();
    assert(d.heap + none =~= d.heap);
    law_value_reads_back(c, t, v, d.heap);
    law_set_cell_reads(
        cols,
        d,
        n,
        r,
        i,
        cell_written(c, a, buf)->Ok_0,
        none,
        CellView::Fixed(value_back(t, v)),
    );
}

// Several columns ----------------------------------------------------------

/// The data of a table after the first `k` of several columns have been
/// overwritten, one after the other. `mores` are what they add to the heap.
pub open spec fn columns_set(
    cols: Seq<ColumnView>,
    d: TableData,
    n: nat,
    places: Seq<int>,
    cells: Seq<Seq<Seq<u8>>>,
    mores: Seq<Seq<u8>>,
    k: nat,
) -> TableData
    decreases k,
{
    if k == 0 {
        d
    } else {
        let b = columns_set(cols, d, n, places, cells, mores, (k - 1) as nat);
        TableData {
            width: d.width,
            main: column_set(
                b.main,
                d.width,
                cols[places[k - 1]].byte_offset as int,
                cells[k - 1],
                n,
            ),
            heap: b.heap + mores[k - 1],
        }
    }
}

/// Columns that are overwritten one after the other each read as what was given
/// for them, and every cell of the others as before. No column is named twice,
/// and the cells of each can be read when it has been written.
pub proof fn law_assign_columns_then_read(
    cols: Seq<ColumnView>,
    d: TableData,
    n: nat,
    places: Seq<int>,
    cells: Seq<Seq<Seq<u8>>>,
    mores: Seq<Seq<u8>>,
    wants: Seq<Seq<CellView>>,
    k: nat,
)
    requires
        data_ok(cols, d, n as int),
        k <= places.len(),
        places.len() == cells.len() == mores.len() == wants.len(),
        forall|m: int| 0 <= m < places.len() ==> 0 <= #[trigger] places[m] < cols.len(),
        forall|m: int, q: int| 0 <= m < q < places.len() ==> places[m] != places[q],
        forall|m: int|
            0 <= m < places.len() ==> (#[trigger] cells[m]).len() == n && wants[m].len() == n,
        forall|m: int, r: int|
            0 <= m < places.len() && 0 <= r < n ==> field_reads(
                cols,
                places[m],
                #[trigger] cells[m][r],
                columns_set(cols, d, n, places, cells, mores, (m + 1) as nat).heap,
                wants[m][r],
            ),
    ensures
        ({
            let after = columns_set(cols, d, n, places, cells, mores, k);
            &&& after.width == d.width
            &&& data_ok(cols, after, n as int)
            &&& forall|m: int, r: int|
                0 <= m < k && 0 <= r < n ==> #[trigger] reads(cols, after, r, places[m]) == Ok::<
                    CellView,
                    CellError,
                >(wants[m][r])
            &&& forall|r: int, j: int|
                0 <= r < n && 0 <= j < cols.len() && !places.take(k as int).contains(j) && readable(
                    cols,
                    d,
                    r,
                    j,
                ) ==> #[trigger] reads(cols, after, r, j) == reads(cols, d, r, j)
        }),
    decreases k,
{
    if k > 0 {
        let before = columns_set(cols, d, n, places, cells, mores, (k - 1) as nat);
        let after = columns_set(cols, d, n, places, cells, mores, k);
        let i = places[k - 1];
        law_assign_columns_then_read(
            cols,
            d,
            n,
            places,
            cells,
            mores,
            wants,
            (k - 1) as nat,
        );
        assert(cells[k - 1].len() == n);
        assert forall|r: int| 0 <= r < n implies field_reads(
            cols,
            i,
            #[trigger] cells[k - 1][r],
            before.heap + mores[k - 1],
            wants[k - 1][r],
        ) by {
            assert(after.heap == before.heap + mores[k - 1]);
            assert(columns_set(cols, d, n, places, cells, mores, (k - 1 + 1) as nat) == after);
        }
        law_set_column_reads(
            cols,
            before,
            n as int,
            i,
            cells[k - 1],
            mores[k - 1],
            wants[k - 1],
        );
        assert forall|m: int, r: int| 0 <= m < k && 0 <= r < n implies #[trigger] reads(
            cols,
            after,
            r,
            places[m],
        ) == Ok::<CellView, CellError>(wants[m][r]) by {
            if m < k - 1 {
                assert(places[m] != i);
                assert(reads(cols, before, r, places[m]) == Ok::<CellView, CellError>(
                    wants[m][r],
                ));
                assert(readable(cols, before, r, places[m]));
            }
        }
        assert forall|r: int, j: int|
            0 <= r < n && 0 <= j < cols.len() && !places.take(k as int).contains(j) && readable(
                cols,
                d,
                r,
                j,
            ) implies #[trigger] reads(cols, after, r, j) == reads(cols, d, r, j) by {
            let t = places.take(k as int);
            assert(t[k - 1] == i);
            let u = places.take(k - 1);
            if u.contains(j) {
                let m = choose|m: int| 0 <= m < u.len() && u[m] == j;
                assert(t[m] == j);
            }
            assert(reads(cols, before, r, j) == reads(cols, d, r, j));
            assert(readable(cols, before, r, j));
        }
    }
}

// Whole reads --------------------------------------------------------------

/// The scaling of a read with the defaults is that of each column.
pub proof fn law_default_kinds(cols: Seq<ColumnView>)
    ensures
        plan_kinds(cols, true) matches Ok(k) ==> k == default_kinds(cols),
    decreases cols.len(),
{
    if cols.len() > 0 {
        let t = cols.drop_last();
        law_default_kinds(t);
        match plan_kinds(t, true) {
            Ok(k) => match scaling(
                cols.last().letter,
                cols.last().tscal,
                cols.last().tzero,
            ) {
                Some(x) => {
                    assert(k.push(x) =~= default_kinds(cols));
                },
                None => {},
            },
            Err(_) => {},
        }
    } else {
        assert(default_kinds(cols) =~= Seq::empty());
    }
}

/// A read of a whole table with the defaults gives, in the order of the rows, the
/// cells that the table has: the records hold the values of fixed width, and the
/// cells in the heap are listed with their descriptors.
pub proof fn law_whole_read(
    cols: Seq<ColumnView>,
    d: TableData,
    n: nat,
    wants: Seq<Seq<CellView>>,
    p: ReadPlan,
    places: Seq<FieldPlace>,
    itemsize: int,
    st: RowState,
)
    requires
        data_ok(cols, d, n as int),
        n <= i64::MAX,
        n <= usize::MAX,
        forall|r: int, i: int|
            0 <= r < n && 0 <= i < cols.len() ==> #[trigger] reads(cols, d, r, i) == Ok::<
                CellView,
                CellError,
            >(wants[r][i]),
        crate::columns::views(p.columns@) == cols,
        p.kinds@ == default_kinds(cols),
        !p.as_bytes,
        runs_hold(p.runs@, Seq::new(n, |r: int| r as usize)),
        plan_fits(p, d.width),
        places_fit(p, places, itemsize),
        places_apart(p, places),
        itemsize >= 0,
        st.out.len() == n * itemsize,
    ensures
        ({
            let rows = rows_of(row_units(d.main, d.width, n), all_pairs(p.runs@));
            let s = rows_state(
                p,
                places,
                itemsize,
                rows,
                all_pairs(p.runs@),
                ByteOrder::Little,
                st,
            );
            &&& s is Ok
            &&& forall|r: int, i: int|
                0 <= r < n && 0 <= i < cols.len() && field_filled(cols[i], p.kinds@[i])
                    ==> #[trigger] wants[r][i] == CellView::Fixed(
                    s->Ok_0.out.subrange(
                        r * itemsize + places[i].offset,
                        r * itemsize + places[i].offset + plan_width(
                            cols[i],
                            p.kinds@[i],
                            false,
                        ),
                    ),
                )
            &&& forall|r: int, i: int|
                0 <= r < n && 0 <= i < cols.len() && cols[i].var_kind is Some
                    ==> s->Ok_0.cells.contains(
                    #[trigger] listed_cell(cols, unit(d.main, d.width, r), r as usize, i),
                )
        }),
{
    let asked = Seq::new(n, |r: int| r as usize);
    lemma_columns_fill(cols, d.width);
    assert forall|r: int, i: int|
        0 <= r < n && 0 <= i < p.columns@.len() && field_filled(cols[i], p.kinds@[i]) implies (
    #[trigger] table_cell(cols, p.kinds@, p.as_bytes, d, ByteOrder::Little, r, i)) is Ok by {
        assert(reads(cols, d, r, i) is Ok);
    }
    law_read_gives_cells(p, places, itemsize, d, n, asked, ByteOrder::Little, st);
    let rows = rows_of(row_units(d.main, d.width, n), all_pairs(p.runs@));
    let s = rows_state(p, places, itemsize, rows, all_pairs(p.runs@), ByteOrder::Little, st)->Ok_0;
    assert forall|r: int, i: int|
        0 <= r < n && 0 <= i < cols.len() && field_filled(
            cols[i],
            p.kinds@[i],
        ) implies #[trigger] wants[r][i] == CellView::Fixed(
        s.out.subrange(
            r * itemsize + places[i].offset,
            r * itemsize + places[i].offset + plan_width(cols[i], p.kinds@[i], false),
        ),
    ) by {
        assert(asked[r] as int == r);
        assert(table_cell(
            cols,
            p.kinds@,
            p.as_bytes,
            d,
            ByteOrder::Little,
            asked[r] as int,
            i,
        ) == reads(cols, d, r, i));
    }
    assert forall|r: int, i: int|
        0 <= r < n && 0 <= i < cols.len() && cols[i].var_kind is Some implies s.cells.contains(
        #[trigger] listed_cell(cols, unit(d.main, d.width, r), r as usize, i),
    ) by {
        assert(asked[r] as int == r);
        assert(s.cells.contains(
            listed_cell(cols, unit(d.main, d.width, asked[r] as int), r as usize, i),
        ));
    }
}

/// A table without a heap that is written and then read whole with the defaults,
/// on a little-endian host, comes back as it was given: every field of every
/// record holds the value that was given for it, strings of bytes as strings of
/// characters.
pub proof fn law_table_round_trip(
    p: PreparedInput,
    bufs: Seq<Seq<u8>>,
    lens: Seq<usize>,
    cols: Seq<ColumnView>,
    width: int,
    heap: Seq<u8>,
    nrows: usize,
    rp: ReadPlan,
    places: Seq<FieldPlace>,
    itemsize: int,
    st: RowState,
)
    requires
        taken_input(p, bufs, lens, cols, width, nrows),
        plain_input(p, bufs, cols, nrows),
        nrows <= i64::MAX,
        crate::columns::views(rp.columns@) == cols,
        rp.kinds@ == default_kinds(cols),
        !rp.as_bytes,
        runs_hold(rp.runs@, Seq::new(nrows as nat, |r: int| r as usize)),
        plan_fits(rp, width),
        places_fit(rp, places, itemsize),
        places_apart(rp, places),
        itemsize >= 0,
        st.out.len() == nrows * itemsize,
    ensures
        strip_error(p, bufs, cols.len(), 0, nrows as nat) is None,
        ({
            let main = rows_for(p, bufs, 0, nrows as nat);
            let rows = rows_of(row_units(main, width, nrows as nat), all_pairs(rp.runs@));
            let s = rows_state(
                rp,
                places,
                itemsize,
                rows,
                all_pairs(rp.runs@),
                ByteOrder::Little,
                st,
            );
            &&& s is Ok
            &&& forall|r: int, i: int|
                0 <= r < nrows && 0 <= i < cols.len() ==> value_back(
                    p.transforms@[i],
                    #[trigger] fixed_value(p, bufs, i, r),
                ) == s->Ok_0.out.subrange(
                    r * itemsize + places[i].offset,
                    r * itemsize + places[i].offset + plan_width(cols[i], rp.kinds@[i], false),
                )
        }),
{
    let n = nrows as nat;
    let main = rows_for(p, bufs, 0, n);
    let d = TableData { width, main, heap };
    let wants = cells_given(p, bufs, n);
    law_write_then_read_table(p, bufs, lens, cols, width, heap, nrows);
    assert forall|r: int, i: int| 0 <= r < n && 0 <= i < cols.len() implies #[trigger] reads(
        cols,
        d,
        r,
        i,
    ) == Ok::<CellView, CellError>(wants[r][i]) by {
        assert(wants[r] == given_row(p, bufs, r));
    }
    law_whole_read(cols, d, n, wants, rp, places, itemsize, st);
    let rows = rows_of(row_units(main, width, n), all_pairs(rp.runs@));
    let s = rows_state(rp, places, itemsize, rows, all_pairs(rp.runs@), ByteOrder::Little, st);
    assert forall|r: int, i: int| 0 <= r < nrows && 0 <= i < cols.len() implies value_back(
        p.transforms@[i],
        #[trigger] fixed_value(p, bufs, i, r),
    ) == s->Ok_0.out.subrange(
        r * itemsize + places[i].offset,
        r * itemsize + places[i].offset + plan_width(cols[i], rp.kinds@[i], false),
    ) by {
        let v = fixed_value(p, bufs, i, r);
        let c = cols[i];
        assert(c.var_kind is None);
        lemma_source_value(p.transforms@[i], p.metas@[i], bufs, lens, nrows, r);
        assert(column_ok(c));
        law_value_reads_back(c, p.transforms@[i], v, heap);
        assert(field_filled(c, rp.kinds@[i]));
        assert(wants[r][i] == CellView::Fixed(value_back(p.transforms@[i], v)));
    }
}

/// The plan of a read of a whole table with the defaults names all columns, each
/// scaled as it asks for, and all rows as they stand.
pub proof fn law_default_read_plan(cols: Seq<ColumnView>, nrows: usize, p: ReadPlan)
    requires
        read_plan_of(cols, nrows, None, true, false) is Ok,
        plan_is(
            p,
            cols,
            read_plan_of(cols, nrows, None, true, false)->Ok_0.0,
            read_plan_of(cols, nrows, None, true, false)->Ok_0.1,
            false,
        ),
    ensures
        crate::columns::views(p.columns@) == cols,
        p.kinds@ == default_kinds(cols),
        runs_hold(p.runs@, Seq::new(nrows as nat, |r: int| r as usize)),
{
    law_default_kinds(cols);
    assert(Seq::new(nrows as nat, |i: int| i as usize) =~= Seq::new(
        nrows as nat,
        |r: int| r as usize,
    ));
}

} // verus!
