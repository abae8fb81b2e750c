//! Rows of the file, built from what is to be written, in strips that fit in
//! memory.

use vstd::prelude::*;

use crate::bytes::{
    concat, copy_of, grid, lemma_concat_rows, lemma_grid_equal, lemma_grid_splice,
    lemma_unit_below, splice, write_at, zero_bytes,
};
use crate::columns::{Column, ColumnView, columns_fill, columns_ok, lemma_columns_fill, views};
use crate::encode::{WriteTransform, apply_transform_cell, encoded, lemma_encoded_len, stored_size};
use crate::error::{CellError, WriteError};
use crate::input::{PreparedInput, SourceMeta, prepared_ok, source_ok};
use crate::runs::{rows_per_chunk, rows_per_piece};

verus! {

// Cells and rows -----------------------------------------------------------

/// The contents of buffers.
pub open spec fn contents(b: Seq<Vec<u8>>) -> Seq<Seq<u8>> {
    Seq::new(b.len(), |i: int| b[i]@)
}

/// The lengths of buffers.
pub open spec fn lens_of(b: Seq<Vec<u8>>) -> Seq<usize> {
    Seq::new(b.len(), |i: int| b[i]@.len() as usize)
}

/// The bytes of row `r` of a source.
pub open spec fn source_value(m: SourceMeta, bufs: Seq<Seq<u8>>, r: int) -> Seq<u8> {
    bufs[m.buffer as int].subrange(
        r * m.stride + m.offset,
        r * m.stride + m.offset + m.size,
    )
}

/// The cell of column `i` in row `r` of what is to be written.
pub open spec fn cell_for(p: PreparedInput, bufs: Seq<Seq<u8>>, i: int, r: int) -> Result<
    Seq<u8>,
    CellError,
> {
    encoded(p.transforms@[i], source_value(p.metas@[i], bufs, r))
}

/// Row `r` of what is to be written: its cells, one behind the other.
pub open spec fn row_for(p: PreparedInput, bufs: Seq<Seq<u8>>, r: int) -> Seq<u8> {
    concat(Seq::new(p.metas@.len(), |i: int| cell_for(p, bufs, i, r)->Ok_0))
}

/// The `n` rows from `from` on of what is to be written.
pub open spec fn rows_for(p: PreparedInput, bufs: Seq<Seq<u8>>, from: int, n: nat) -> Seq<u8> {
    concat(Seq::new(n, |r: int| row_for(p, bufs, from + r)))
}

/// The first of `n` rows from `from` on whose cell of column `i` cannot be
/// written: its number among these rows, and why.
pub open spec fn column_error(
    p: PreparedInput,
    bufs: Seq<Seq<u8>>,
    i: int,
    from: int,
    n: nat,
) -> Option<(int, CellError)>
    decreases n,
{
    if n == 0 {
        None
    } else {
        match column_error(p, bufs, i, from, (n - 1) as nat) {
            Some(e) => Some(e),
            None => match cell_for(p, bufs, i, from + n - 1) {
                Err(e) => Some((n - 1, e)),
                Ok(_) => None,
            },
        }
    }
}

/// The first cell that cannot be written: columns come before rows.
pub open spec fn strip_error(
    p: PreparedInput,
    bufs: Seq<Seq<u8>>,
    k: nat,
    from: int,
    n: nat,
) -> Option<WriteError>
    decreases k,
{
    if k == 0 {
        None
    } else {
        match strip_error(p, bufs, (k - 1) as nat, from, n) {
            Some(e) => Some(e),
            None => match column_error(p, bufs, k - 1, from, n) {
                Some((r, cell)) => Some(
                    WriteError::Cell { column: (k - 1) as usize, row: r as usize, cell },
                ),
                None => None,
            },
        }
    }
}

proof fn lemma_column_error(
    p: PreparedInput,
    bufs: Seq<Seq<u8>>,
    i: int,
    from: int,
    m: nat,
    n: nat,
)
    requires
        m <= n,
        column_error(p, bufs, i, from, m) is Some,
    ensures
        column_error(p, bufs, i, from, n) == column_error(p, bufs, i, from, m),
    decreases n,
{
    if m < n {
        lemma_column_error(p, bufs, i, from, m, (n - 1) as nat);
    }
}

proof fn lemma_strip_error(
    p: PreparedInput,
    bufs: Seq<Seq<u8>>,
    m: nat,
    k: nat,
    from: int,
    n: nat,
)
    requires
        m <= k,
        strip_error(p, bufs, m, from, n) is Some,
    ensures
        strip_error(p, bufs, k, from, n) == strip_error(p, bufs, m, from, n),
    decreases k,
{
    if m < k {
        lemma_strip_error(p, bufs, m, (k - 1) as nat, from, n);
    }
}

/// Where a column has no error, each of its cells can be written.
proof fn lemma_column_written(
    p: PreparedInput,
    bufs: Seq<Seq<u8>>,
    i: int,
    from: int,
    n: nat,
    r: int,
)
    requires
        column_error(p, bufs, i, from, n) is None,
        0 <= r < n,
    ensures
        cell_for(p, bufs, i, from + r) is Ok,
    decreases n,
{
    if r < n - 1 {
        lemma_column_written(p, bufs, i, from, (n - 1) as nat, r);
    }
}

/// Where a strip has no error, each of its cells can be written.
pub proof fn lemma_strip_written(
    p: PreparedInput,
    bufs: Seq<Seq<u8>>,
    k: nat,
    from: int,
    n: nat,
    i: int,
    r: int,
)
    requires
        strip_error(p, bufs, k, from, n) is None,
        0 <= i < k,
        0 <= r < n,
    ensures
        cell_for(p, bufs, i, from + r) is Ok,
    decreases k,
{
    if i < k - 1 {
        lemma_strip_written(p, bufs, (k - 1) as nat, from, n, i, r);
    } else {
        lemma_column_written(p, bufs, i, from, n, r);
    }
}

// Columns in a row ---------------------------------------------------------

/// Every byte of a row that columns fill is in one of them.
pub proof fn lemma_column_at(cols: Seq<ColumnView>, width: int, y: int) -> (i: int)
    requires
        columns_fill(cols, width),
        0 <= y < width,
    ensures
        0 <= i < cols.len(),
        cols[i].byte_offset <= y < cols[i].byte_offset + cols[i].byte_width,
    decreases cols.len(),
{
    let c = cols.last();
    if y >= c.byte_offset {
        cols.len() - 1
    } else {
        let i = lemma_column_at(cols.drop_last(), c.byte_offset as int, y);
        assert(cols.drop_last()[i] == cols[i]);
        i
    }
}

/// Cells one behind the other are a row in which each column has its cell.
pub proof fn lemma_row_concat(cols: Seq<ColumnView>, width: int, cells: Seq<Seq<u8>>)
    requires
        columns_fill(cols, width),
        cells.len() == cols.len(),
        forall|i: int| 0 <= i < cols.len() ==> (#[trigger] cells[i]).len() == cols[i].byte_width,
    ensures
        concat(cells).len() == width,
        forall|i: int, y: int|
            0 <= i < cols.len() && 0 <= y < cols[i].byte_width ==> concat(
                cells,
            )[cols[i].byte_offset + y] == #[trigger] cells[i][y],
    decreases cols.len(),
{
    if cols.len() > 0 {
        let c = cols.last();
        let n = cols.len() - 1;
        let t = cells.drop_last();
        let u = cols.drop_last();
        assert(forall|i: int| 0 <= i < n ==> t[i] == cells[i] && u[i] == cols[i]);
        lemma_row_concat(u, c.byte_offset as int, t);
        lemma_columns_fill(u, c.byte_offset as int);
        assert(cells[n] == cells.last());
        assert forall|i: int, y: int|
            0 <= i < cols.len() && 0 <= y < cols[i].byte_width implies concat(
            cells,
        )[cols[i].byte_offset + y] == #[trigger] cells[i][y] by {
            if i < n {
                assert(concat(t)[u[i].byte_offset + y] == t[i][y]);
                assert(u[i].byte_offset + u[i].byte_width <= c.byte_offset);
            }
        }
    }
}

/// A row that is written has the width of the table, and each column its cell.
pub proof fn lemma_row_for(
    p: PreparedInput,
    bufs: Seq<Seq<u8>>,
    cols: Seq<ColumnView>,
    width: int,
    r: int,
)
    requires
        columns_fill(cols, width),
        p.metas@.len() == cols.len(),
        forall|i: int|
            0 <= i < cols.len() ==> (#[trigger] cell_for(p, bufs, i, r)) is Ok && cell_for(
                p,
                bufs,
                i,
                r,
            )->Ok_0.len() == cols[i].byte_width,
    ensures
        row_for(p, bufs, r).len() == width,
        forall|i: int, y: int|
            0 <= i < cols.len() && 0 <= y < cols[i].byte_width ==> row_for(
                p,
                bufs,
                r,
            )[cols[i].byte_offset + y] == #[trigger] cell_for(p, bufs, i, r)->Ok_0[y],
{
    let cells = Seq::new(p.metas@.len(), |i: int| cell_for(p, bufs, i, r)->Ok_0);
    assert forall|i: int| 0 <= i < cols.len() implies (#[trigger] cells[i]).len()
        == cols[i].byte_width by {
        assert(cell_for(p, bufs, i, r) is Ok);
    }
    lemma_row_concat(cols, width, cells);
    assert forall|i: int, y: int|
        0 <= i < cols.len() && 0 <= y < cols[i].byte_width implies row_for(
        p,
        bufs,
        r,
    )[cols[i].byte_offset + y] == #[trigger] cell_for(p, bufs, i, r)->Ok_0[y] by {
        assert(cells[i][y] == cell_for(p, bufs, i, r)->Ok_0[y]);
    }
}

// Building -----------------------------------------------------------------

/// The bytes of a source lie in its buffer.
proof fn lemma_source(t: WriteTransform, m: SourceMeta, lens: Seq<usize>, nrows: usize, r: int)
    requires
        source_ok(t, m, lens, nrows),
        0 <= r < nrows,
    ensures
        0 <= r * m.stride,
        r * m.stride + m.offset + m.size <= lens[m.buffer as int],
{
    lemma_unit_below(r, nrows as int, m.stride as int);
}

/// The value of a row of a source.
fn source_bytes(
    m: SourceMeta,
    bufs: &Vec<Vec<u8>>,
    r: usize,
    Ghost(t): Ghost<WriteTransform>,
    Ghost(nrows): Ghost<usize>,
) -> (v: Vec<u8>)
    requires
        source_ok(t, m, lens_of(bufs@), nrows),
        r < nrows,
    ensures
        v@ == source_value(m, contents(bufs@), r as int),
        v@.len() == m.size,
{
    proof {
        lemma_source(t, m, lens_of(bufs@), nrows, r as int);
    }
    let b: &Vec<u8> = &bufs[m.buffer];
    let total: usize = b.len();
    assert(lens_of(bufs@)[m.buffer as int] == total);
    copy_of(b, r * m.stride + m.offset, m.size)
}

/// Whether the cells of column `i` in the first `n` rows of a strip are done.
spec fn column_done(
    p: PreparedInput,
    bufs: Seq<Seq<u8>>,
    strip: Seq<u8>,
    row_width: int,
    c: ColumnView,
    i: int,
    from: int,
    n: int,
) -> bool {
    forall|r: int, y: int|
        0 <= r < n && 0 <= y < c.byte_width ==> #[trigger] grid(
            strip,
            row_width,
            r,
            c.byte_offset + y,
        ) == cell_for(p, bufs, i, from + r)->Ok_0[y]
}

/// Whether column `i` of a strip still holds the values of its source, in its
/// rows from `n` on.
spec fn column_raw(
    p: PreparedInput,
    bufs: Seq<Seq<u8>>,
    strip: Seq<u8>,
    row_width: int,
    c: ColumnView,
    i: int,
    from: int,
    n: int,
    chunk: int,
) -> bool {
    forall|r: int, y: int|
        n <= r < chunk && 0 <= y < c.byte_width ==> #[trigger] grid(
            strip,
            row_width,
            r,
            c.byte_offset + y,
        ) == source_value(p.metas@[i], bufs, from + r)[y]
}

/// Whether two strips agree outside a column.
spec fn same_outside(
    a: Seq<u8>,
    b: Seq<u8>,
    row_width: int,
    chunk: int,
    from: int,
    to: int,
) -> bool {
    forall|r: int, y: int|
        0 <= r < chunk && 0 <= y < row_width && !(from <= y < to) ==> #[trigger] grid(
            a,
            row_width,
            r,
            y,
        ) == grid(b, row_width, r, y)
}

/// Puts the cells of column `i` into a strip. In place, the strip holds the
/// values of the column already.
fn put_column(
    p: &PreparedInput,
    col: &Column,
    bufs: &Vec<Vec<u8>>,
    strip: &mut Vec<u8>,
    i: usize,
    row_width: usize,
    row_start: usize,
    chunk: usize,
    nrows: usize,
    in_place: bool,
) -> (v: Result<(), (usize, CellError)>)
    requires
        i < p.metas@.len(),
        p.metas@.len() == p.transforms@.len(),
        source_ok(p.transforms@[i as int], p.metas@[i as int], lens_of(bufs@), nrows),
        stored_size(p.transforms@[i as int]) == col.byte_width,
        col.byte_offset + col.byte_width <= row_width,
        row_start + chunk <= nrows,
        old(strip)@.len() == chunk * row_width,
        in_place ==> p.metas@[i as int].size == col.byte_width && column_raw(
            *p,
            contents(bufs@),
            old(strip)@,
            row_width as int,
            col@,
            i as int,
            row_start as int,
            0,
            chunk as int,
        ),
    ensures
        final(strip)@.len() == old(strip)@.len(),
        match column_error(
            *p,
            contents(bufs@),
            i as int,
            row_start as int,
            chunk as nat,
        ) {
            Some((r, e)) => v == Err::<(), (usize, CellError)>((r as usize, e)),
            None => v is Ok && column_done(
                *p,
                contents(bufs@),
                final(strip)@,
                row_width as int,
                col@,
                i as int,
                row_start as int,
                chunk as int,
            ) && same_outside(
                old(strip)@,
                final(strip)@,
                row_width as int,
                chunk as int,
                col.byte_offset as int,
                col.byte_offset + col.byte_width,
            ),
        },
{
    let total: usize = strip.len();
    let t: WriteTransform = p.transforms[i];
    let ghost b = contents(bufs@);
    let ghost w = row_width as int;
    let ghost c = col@;
    let ghost first = strip@;
    let mut r: usize = 0;
    while r < chunk
        invariant
            r <= chunk,
            i < p.metas@.len(),
            p.metas@.len() == p.transforms@.len(),
            t == p.transforms@[i as int],
            source_ok(t, p.metas@[i as int], lens_of(bufs@), nrows),
            stored_size(t) == col.byte_width,
            col.byte_offset + col.byte_width <= row_width,
            row_start + chunk <= nrows,
                strip@.len() == chunk * row_width == total == first.len() == old(strip)@.len(),
            first == old(strip)@,
            b == contents(bufs@),
            w == row_width,
            c == col@,
            column_error(*p, b, i as int, row_start as int, r as nat) is None,
            column_done(*p, b, strip@, w, c, i as int, row_start as int, r as int),
            same_outside(
                first,
                strip@,
                w,
                chunk as int,
                c.byte_offset as int,
                c.byte_offset + c.byte_width,
            ),
            in_place ==> p.metas@[i as int].size == col.byte_width && column_raw(
                *p,
                b,
                strip@,
                w,
                c,
                i as int,
                row_start as int,
                r as int,
                chunk as int,
            ),
        decreases chunk - r,
    {
        proof {
            lemma_unit_below(r as int, chunk as int, w);
            lemma_source(t, p.metas@[i as int], lens_of(bufs@), nrows, row_start + r);
        }
        let at: usize = r * row_width + col.byte_offset;
        let src: Vec<u8> = if in_place {
            let s: Vec<u8> = copy_of(strip, at, col.byte_width);
            proof {
                let want = source_value(p.metas@[i as int], b, row_start + r);
                assert forall|y: int| 0 <= y < c.byte_width implies s@[y] == want[y] by {
                    assert(grid(strip@, w, r as int, c.byte_offset + y) == want[y]);
                }
                assert(s@ =~= want);
            }
            s
        } else {
            source_bytes(p.metas[i], bufs, row_start + r, Ghost(t), Ghost(nrows))
        };
        let ghost before = strip@;
        match apply_transform_cell(t, &src) {
            Err(e) => {
                proof {
                    assert(column_error(*p, b, i as int, row_start as int, (r + 1) as nat) == Some(
                        (r as int, e),
                    ));
                    lemma_column_error(
                        *p,
                        b,
                        i as int,
                        row_start as int,
                        (r + 1) as nat,
                        chunk as nat,
                    );
                }
                return Err((r, e));
            },
            Ok(cell) => {
                proof {
                    lemma_grid_splice(
                        before,
                        w,
                        chunk as int,
                        r as int,
                        c.byte_offset as int,
                        cell@,
                    );
                }
                write_at(strip, at, &cell);
                proof {
                    assert(strip@ == splice(before, r * w + c.byte_offset, cell@));
                    assert(cell_for(*p, b, i as int, row_start + r) == Ok::<Seq<u8>, CellError>(
                        cell@,
                    ));
                    assert(column_done(*p, b, strip@, w, c, i as int, row_start as int, r + 1));
                }
            },
        }
        r = r + 1;
    }
    Ok(())
}

/// Whether the first `k` columns of a strip are done.
spec fn strip_done(
    p: PreparedInput,
    bufs: Seq<Seq<u8>>,
    cols: Seq<ColumnView>,
    strip: Seq<u8>,
    row_width: int,
    from: int,
    chunk: int,
    k: int,
) -> bool {
    forall|i: int|
        0 <= i < k ==> column_done(
            p,
            bufs,
            strip,
            row_width,
            #[trigger] cols[i],
            i,
            from,
            chunk,
        )
}

/// A strip all of whose columns are done is the rows that are to be written.
proof fn lemma_strip_done(
    p: PreparedInput,
    bufs: Seq<Seq<u8>>,
    cols: Seq<ColumnView>,
    strip: Seq<u8>,
    row_width: int,
    from: int,
    chunk: nat,
)
    requires
        columns_fill(cols, row_width),
        p.metas@.len() == cols.len(),
        strip.len() == chunk * row_width,
        strip_done(p, bufs, cols, strip, row_width, from, chunk as int, cols.len() as int),
        forall|i: int, r: int|
            0 <= i < cols.len() && 0 <= r < chunk ==> (#[trigger] cell_for(p, bufs, i, from + r))
                is Ok && cell_for(p, bufs, i, from + r)->Ok_0.len() == cols[i].byte_width,
    ensures
        strip == rows_for(p, bufs, from, chunk),
{
    let rows = Seq::new(chunk, |r: int| row_for(p, bufs, from + r));
    lemma_columns_fill(cols, row_width);
    assert forall|r: int| 0 <= r < chunk implies (#[trigger] rows[r]).len() == row_width by {
        lemma_row_for(p, bufs, cols, row_width, from + r);
    }
    lemma_concat_rows(rows, row_width);
    assert forall|r: int, y: int| 0 <= r < chunk && 0 <= y < row_width implies #[trigger] grid(
        strip,
        row_width,
        r,
        y,
    ) == grid(concat(rows), row_width, r, y) by {
        lemma_row_for(p, bufs, cols, row_width, from + r);
        let i = lemma_column_at(cols, row_width, y);
        let z = y - cols[i].byte_offset;
        assert(column_done(p, bufs, strip, row_width, cols[i], i, from, chunk as int));
        assert(grid(strip, row_width, r, cols[i].byte_offset + z) == cell_for(
            p,
            bufs,
            i,
            from + r,
        )->Ok_0[z]);
        assert(rows[r][cols[i].byte_offset + z] == cell_for(p, bufs, i, from + r)->Ok_0[z]);
    }
    lemma_grid_equal(strip, concat(rows), row_width, chunk as int);
}

/// Builds the rows from `row_start` on. Where the records lie in memory as the
/// rows do in the file, they are copied whole and transformed in place; else
/// each column is taken from its own source.
pub fn encode_strip(
    p: &PreparedInput,
    columns: &[Column],
    bufs: &Vec<Vec<u8>>,
    row_width: usize,
    row_start: usize,
    chunk: usize,
    nrows: usize,
) -> (v: Result<Vec<u8>, WriteError>)
    requires
        columns_ok(views(columns@), row_width as int),
        columns@.len() > 0,
        prepared_ok(*p, views(columns@), lens_of(bufs@), nrows, row_width),
        row_start + chunk <= nrows,
        chunk * row_width <= usize::MAX,
    ensures
        match strip_error(
            *p,
            contents(bufs@),
            columns@.len(),
            row_start as int,
            chunk as nat,
        ) {
            Some(e) => v == Err::<Vec<u8>, WriteError>(e),
            None => v matches Ok(s) && s@ == rows_for(
                *p,
                contents(bufs@),
                row_start as int,
                chunk as nat,
            ),
        },
{
    let n: usize = columns.len();
    let ghost cols = views(columns@);
    let ghost b = contents(bufs@);
    let ghost w = row_width as int;
    let in_place: bool = p.layout_matches;
    let total: usize = chunk * row_width;
    proof {
        lemma_columns_fill(cols, w);
        vstd::arithmetic::mul::lemma_mul_nonnegative(chunk as int, w);
    }
    let mut strip: Vec<u8> = if in_place {
        let m: SourceMeta = p.metas[0];
        proof {
            assert(source_ok(p.transforms@[0], p.metas@[0], lens_of(bufs@), nrows));
            assert(m.stride == row_width);
            lemma_strip_in_buffer(row_start as int, chunk as int, nrows as int, w);
        }
        let shared: &Vec<u8> = &bufs[m.buffer];
        let len: usize = shared.len();
        assert(lens_of(bufs@)[m.buffer as int] == len);
        copy_of(shared, row_start * row_width, total)
    } else {
        zero_bytes(total)
    };
    let mut i: usize = 0;
    proof {
        if in_place {
            assert forall|j: int| 0 <= j < n implies column_raw(
                *p,
                b,
                strip@,
                w,
                #[trigger] cols[j],
                j,
                row_start as int,
                0,
                chunk as int,
            ) by {
                lemma_raw(
                    *p,
                    b,
                    strip@,
                    w,
                    cols[j],
                    j,
                    row_start as int,
                    chunk as int,
                    nrows as int,
                    p.metas@[0],
                );
            }
        }
    }
    while i < n
        invariant
            i <= n == columns@.len() == cols.len(),
            cols == views(columns@),
            columns_ok(cols, w),
            prepared_ok(*p, cols, lens_of(bufs@), nrows, row_width),
            row_start + chunk <= nrows,
                b == contents(bufs@),
            w == row_width,
            in_place == p.layout_matches,
            strip@.len() == total == chunk * row_width,
            strip_error(*p, b, i as nat, row_start as int, chunk as nat) is None,
            strip_done(*p, b, cols, strip@, w, row_start as int, chunk as int, i as int),
            in_place ==> forall|j: int|
                i <= j < n ==> column_raw(
                    *p,
                    b,
                    strip@,
                    w,
                    #[trigger] cols[j],
                    j,
                    row_start as int,
                    0,
                    chunk as int,
                ),
        decreases n - i,
    {
        let ghost before = strip@;
        let ghost c = cols[i as int];
        proof {
            lemma_columns_fill(cols, w);
            assert(c == columns@[i as int]@);
            assert(source_ok(p.transforms@[i as int], p.metas@[i as int], lens_of(bufs@), nrows));
        }
        match put_column(
            p,
            &columns[i],
            bufs,
            &mut strip,
            i,
            row_width,
            row_start,
            chunk,
            nrows,
            in_place,
        ) {
            Err((row, cell)) => {
                proof {
                    lemma_strip_error(
                        *p,
                        b,
                        (i + 1) as nat,
                        n as nat,
                        row_start as int,
                        chunk as nat,
                    );
                }
                return Err(WriteError::Cell { column: i, row, cell });
            },
            Ok(_) => {},
        }
        proof {
            assert forall|j: int| 0 <= j < i + 1 implies column_done(
                *p,
                b,
                strip@,
                w,
                #[trigger] cols[j],
                j,
                row_start as int,
                chunk as int,
            ) by {
                if j < i {
                    assert(column_done(
                        *p,
                        b,
                        before,
                        w,
                        cols[j],
                        j,
                        row_start as int,
                        chunk as int,
                    ));
                    assert(cols[j].byte_offset + cols[j].byte_width <= c.byte_offset);
                    lemma_keeps_done(
                        *p,
                        b,
                        before,
                        strip@,
                        w,
                        cols[j],
                        j,
                        row_start as int,
                        chunk as int,
                        c.byte_offset as int,
                        c.byte_offset + c.byte_width,
                    );
                }
            }
            if in_place {
                assert forall|j: int| i + 1 <= j < n implies column_raw(
                    *p,
                    b,
                    strip@,
                    w,
                    #[trigger] cols[j],
                    j,
                    row_start as int,
                    0,
                    chunk as int,
                ) by {
                    assert(column_raw(
                        *p,
                        b,
                        before,
                        w,
                        cols[j],
                        j,
                        row_start as int,
                        0,
                        chunk as int,
                    ));
                    assert(c.byte_offset + c.byte_width <= cols[j].byte_offset);
                    lemma_keeps_raw(
                        *p,
                        b,
                        before,
                        strip@,
                        w,
                        cols[j],
                        j,
                        row_start as int,
                        chunk as int,
                        c.byte_offset as int,
                        c.byte_offset + c.byte_width,
                    );
                }
            }
        }
        i = i + 1;
    }
    proof {
        assert forall|j: int, r: int| 0 <= j < cols.len() && 0 <= r < chunk implies (
        #[trigger] cell_for(*p, b, j, row_start + r)) is Ok && cell_for(
            *p,
            b,
            j,
            row_start + r,
        )->Ok_0.len() == cols[j].byte_width by {
            lemma_strip_written(
                *p,
                b,
                n as nat,
                row_start as int,
                chunk as nat,
                j,
                r,
            );
            assert(source_ok(p.transforms@[j], p.metas@[j], lens_of(bufs@), nrows));
            lemma_source(p.transforms@[j], p.metas@[j], lens_of(bufs@), nrows, row_start + r);
            lemma_encoded_len(
                p.transforms@[j],
                source_value(p.metas@[j], b, row_start + r),
            );
        }
        lemma_strip_done(*p, b, cols, strip@, w, row_start as int, chunk as nat);
    }
    Ok(strip)
}

proof fn lemma_strip_in_buffer(from: int, chunk: int, nrows: int, w: int)
    requires
        0 <= from,
        0 <= chunk,
        from + chunk <= nrows,
        0 <= w,
    ensures
        0 <= from * w,
        from * w + chunk * w <= nrows * w,
{
    vstd::arithmetic::mul::lemma_mul_is_distributive_add_other_way(w, from, chunk);
    vstd::arithmetic::mul::lemma_mul_inequality(from + chunk, nrows, w);
    vstd::arithmetic::mul::lemma_mul_nonnegative(from, w);
}

/// Records that lie in memory as the rows do hold the values of each column.
proof fn lemma_raw(
    p: PreparedInput,
    bufs: Seq<Seq<u8>>,
    strip: Seq<u8>,
    w: int,
    c: ColumnView,
    j: int,
    from: int,
    chunk: int,
    nrows: int,
    m: SourceMeta,
)
    requires
        0 <= from,
        0 <= chunk,
        from + chunk <= nrows,
        0 <= j < p.metas@.len(),
        p.metas@[j].buffer == m.buffer,
        p.metas@[j].stride == w,
        p.metas@[j].offset == c.byte_offset,
        p.metas@[j].size == c.byte_width,
        c.byte_offset + c.byte_width <= w,
        m.buffer < bufs.len(),
        nrows * w <= bufs[m.buffer as int].len(),
        strip == bufs[m.buffer as int].subrange(from * w, from * w + chunk * w),
    ensures
        column_raw(p, bufs, strip, w, c, j, from, 0, chunk),
{
    lemma_strip_in_buffer(from, chunk, nrows, w);
    assert forall|r: int, y: int| 0 <= r < chunk && 0 <= y < c.byte_width implies #[trigger] grid(
        strip,
        w,
        r,
        c.byte_offset + y,
    ) == source_value(p.metas@[j], bufs, from + r)[y] by {
        lemma_unit_below(r, chunk, w);
        vstd::arithmetic::mul::lemma_mul_is_distributive_add_other_way(w, from, r);
        lemma_unit_below(from + r, nrows, w);
    }
}

proof fn lemma_keeps_done(
    p: PreparedInput,
    bufs: Seq<Seq<u8>>,
    a: Seq<u8>,
    b: Seq<u8>,
    w: int,
    c: ColumnView,
    j: int,
    from: int,
    chunk: int,
    lo: int,
    hi: int,
)
    requires
        column_done(p, bufs, a, w, c, j, from, chunk),
        same_outside(a, b, w, chunk, lo, hi),
        c.byte_offset + c.byte_width <= w,
        c.byte_offset + c.byte_width <= lo,
    ensures
        column_done(p, bufs, b, w, c, j, from, chunk),
{
    assert forall|r: int, y: int| 0 <= r < chunk && 0 <= y < c.byte_width implies #[trigger] grid(
        b,
        w,
        r,
        c.byte_offset + y,
    ) == cell_for(p, bufs, j, from + r)->Ok_0[y] by {
        assert(grid(a, w, r, c.byte_offset + y) == grid(b, w, r, c.byte_offset + y));
    }
}

proof fn lemma_keeps_raw(
    p: PreparedInput,
    bufs: Seq<Seq<u8>>,
    a: Seq<u8>,
    b: Seq<u8>,
    w: int,
    c: ColumnView,
    j: int,
    from: int,
    chunk: int,
    lo: int,
    hi: int,
)
    requires
        column_raw(p, bufs, a, w, c, j, from, 0, chunk),
        same_outside(a, b, w, chunk, lo, hi),
        c.byte_offset + c.byte_width <= w,
        hi <= c.byte_offset,
    ensures
        column_raw(p, bufs, b, w, c, j, from, 0, chunk),
{
    assert forall|r: int, y: int| 0 <= r < chunk && 0 <= y < c.byte_width implies #[trigger] grid(
        b,
        w,
        r,
        c.byte_offset + y,
    ) == source_value(p.metas@[j], bufs, from + r)[y] by {
        assert(grid(a, w, r, c.byte_offset + y) == grid(b, w, r, c.byte_offset + y));
    }
}

/// An error in a row that stands alone: the row is the one that was asked for.
pub open spec fn at_row(e: WriteError, r: usize) -> WriteError {
    match e {
        WriteError::Cell { column, row, cell } => WriteError::Cell { column, row: r, cell },
        _ => e,
    }
}

/// Builds row `r` alone.
pub fn encode_row(
    p: &PreparedInput,
    columns: &[Column],
    bufs: &Vec<Vec<u8>>,
    row_width: usize,
    r: usize,
    nrows: usize,
) -> (v: Result<Vec<u8>, WriteError>)
    requires
        columns_ok(views(columns@), row_width as int),
        columns@.len() > 0,
        prepared_ok(*p, views(columns@), lens_of(bufs@), nrows, row_width),
        r < nrows,
    ensures
        match strip_error(*p, contents(bufs@), columns@.len(), r as int, 1) {
            Some(e) => v == Err::<Vec<u8>, WriteError>(at_row(e, r)),
            None => v matches Ok(s) && s@ == row_for(*p, contents(bufs@), r as int),
        },
{
    assert(1 * row_width == row_width);
    match encode_strip(p, columns, bufs, row_width, r, 1, nrows) {
        Ok(s) => {
            proof {
                let b = contents(bufs@);
                let rows = Seq::new(1, |k: int| row_for(*p, b, r + k));
                reveal_with_fuel(concat, 2);
                assert(rows.drop_last() =~= Seq::empty());
                assert(rows_for(*p, b, r as int, 1) =~= row_for(*p, b, r as int));
            }
            Ok(s)
        },
        Err(e) => match e {
            WriteError::Cell { column, row: _, cell } => Err(
                WriteError::Cell { column, row: r, cell },
            ),
            _ => Err(e),
        },
    }
}

// Strips -------------------------------------------------------------------

/// Rows that are built and written together: `rows` rows from `first` on, whose
/// bytes go to `offset` in the file.
#[derive(Clone, Copy, PartialEq, Eq, Structural, Debug)]
pub struct Strip {
    pub first: usize,
    pub rows: usize,
    pub offset: u64,
}

/// Whether strips hold the first `upto` rows, one behind the other, from
/// `start` on in the file.
pub open spec fn strips_cover(s: Seq<Strip>, upto: int, row_width: int, start: int) -> bool
    decreases s.len(),
{
    if s.len() == 0 {
        upto == 0
    } else {
        let l = s.last();
        &&& l.first + l.rows == upto
        &&& 0 < l.rows <= rows_per_piece(row_width as usize)
        &&& l.offset == start + l.first * row_width
        &&& strips_cover(s.drop_last(), l.first as int, row_width, start)
    }
}

/// The bytes of a planned strip fit the machine, however many rows a table has.
pub proof fn law_strip_fits(rows: usize, row_width: usize)
    requires
        rows <= rows_per_piece(row_width),
    ensures
        rows * row_width <= usize::MAX,
{
    let w = row_width as int;
    let k = rows as int;
    if w <= 1 {
        assert(k * w <= k) by (nonlinear_arith)
            requires
                0 <= w <= 1,
                0 <= k,
        ;
    } else if k <= 1 {
        assert(k * w <= w) by (nonlinear_arith)
            requires
                0 <= k <= 1,
                w >= 0,
        ;
    } else {
        let t = crate::runs::READ_CHUNK_TARGET_BYTES as int;
        vstd::arithmetic::div_mod::lemma_fundamental_div_mod(t, w);
        vstd::arithmetic::div_mod::lemma_mod_bound(t, w);
        assert(k * w <= (t / w) * w) by (nonlinear_arith)
            requires
                k <= t / w,
                w > 0,
        ;
        assert(w * (t / w) == (t / w) * w) by (nonlinear_arith);
    }
}

/// Cuts rows into strips, or `None` where the file would be beyond 64 bits.
pub fn plan_strips(nrows: usize, row_width: usize, start: u64) -> (r: Option<Vec<Strip>>)
    ensures
        match r {
            Some(s) => strips_cover(s@, nrows as int, row_width as int, start as int),
            None => start + nrows * row_width > u64::MAX,
        },
{
    let total: u64 = match (nrows as u64).checked_mul(row_width as u64) {
        None => {
            return None;
        },
        Some(t) => t,
    };
    if start.checked_add(total).is_none() {
        return None;
    }
    let per: usize = rows_per_chunk(row_width);
    let mut out: Vec<Strip> = Vec::new();
    let mut first: usize = 0;
    while first < nrows
        invariant
            first <= nrows,
            per > 0,
            per == rows_per_piece(row_width),
            total == nrows * row_width,
            start + total <= u64::MAX,
            strips_cover(out@, first as int, row_width as int, start as int),
        decreases nrows - first,
    {
        let rows: usize = if per < nrows - first {
            per
        } else {
            nrows - first
        };
        proof {
            lemma_strip_in_buffer(first as int, rows as int, nrows as int, row_width as int);
            vstd::arithmetic::mul::lemma_mul_nonnegative(rows as int, row_width as int);
        }
        let ghost before = out@;
        out.push(Strip { first, rows, offset: start + (first as u64) * (row_width as u64) });
        assert(out@.drop_last() =~= before);
        first = first + rows;
    }
    Some(out)
}

/// Where a cell stands in the file, or `None` beyond 64 bits.
pub fn cell_file_offset(data_offset: u64, row: usize, row_width: usize, byte_offset: usize) -> (r:
    Option<u64>)
    ensures
        match r {
            Some(v) => v == data_offset + row * row_width + byte_offset,
            None => data_offset + row * row_width + byte_offset > u64::MAX,
        },
{
    match (row as u64).checked_mul(row_width as u64) {
        None => None,
        Some(a) => match data_offset.checked_add(a) {
            None => None,
            Some(b) => b.checked_add(byte_offset as u64),
        },
    }
}

/// The rows of two strips, one behind the other, are the rows of both.
pub proof fn law_strips_join(p: PreparedInput, bufs: Seq<Seq<u8>>, from: int, a: nat, b: nat)
    ensures
        rows_for(p, bufs, from, a + b) == rows_for(p, bufs, from, a) + rows_for(
            p,
            bufs,
            from + a,
            b,
        ),
    decreases b,
{
    let all = Seq::new(a + b, |r: int| row_for(p, bufs, from + r));
    let one = Seq::new(a, |r: int| row_for(p, bufs, from + r));
    let two = Seq::new(b, |r: int| row_for(p, bufs, from + a + r));
    if b == 0 {
        assert(all =~= one);
        assert(concat(two) =~= Seq::empty());
        assert(concat(one) + concat(two) =~= concat(one));
    } else {
        law_strips_join(p, bufs, from, a, (b - 1) as nat);
        assert(all.drop_last() =~= Seq::new(
            (a + b - 1) as nat,
            |r: int| row_for(p, bufs, from + r),
        ));
        assert(two.drop_last() =~= Seq::new(
            (b - 1) as nat,
            |r: int| row_for(p, bufs, from + a + r),
        ));
        assert(all.last() == two.last());
        assert(concat(one) + (concat(two.drop_last()) + two.last()) =~= (concat(one) + concat(
            two.drop_last(),
        )) + two.last());
    }
}

} // verus!
