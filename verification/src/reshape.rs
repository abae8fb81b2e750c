//! Putting a column into the rows of a file, and taking one out.

use vstd::prelude::*;

use crate::bytes::{
    concat, copy_of, field_at, grid, lemma_concat_rows, lemma_unit, lemma_unit_below, splice,
};
use crate::columns::Descriptor;
use crate::encode::{WriteTransform, apply_transform_cell, encoded, source_size, transform_ok};
use crate::error::{CellError, EditError};
use crate::heap::{descriptor_for, write_descriptor};
use crate::keywords::{count_of, heap_base};
use crate::layout::{
    Extent, extent_for, fits, grow_or_shrink_data_extent, law_extent_keeps_the_rest, law_padded,
    lemma_padded_order, padded, resized,
};
use crate::repack::custom_heap;
use crate::shuffle::{
    Move, RowStrip, applied, back_strips, front_strips, holds, law_narrow_in_place,
    law_widen_in_place, moved, relocate_region_backward, relocate_region_forward, reshaped, row_of,
    short_moves, shuffled, strip_out, strip_rows, strips_from_back, strips_from_front,
};
use crate::vla::VlaCellPlan;

verus! {

// Rows ---------------------------------------------------------------------

/// A row with a cell put in behind its first `pre` bytes.
pub open spec fn widened(row: Seq<u8>, pre: int, cell: Seq<u8>) -> Seq<u8> {
    row.take(pre) + cell + row.skip(pre)
}

/// A row without the bytes from `pre` to `post`.
pub open spec fn narrowed(row: Seq<u8>, pre: int, post: int) -> Seq<u8> {
    row.take(pre) + row.skip(post)
}

/// Taking out the cell that was put in gives back the row.
pub proof fn law_narrow_undoes_widen(row: Seq<u8>, pre: int, cell: Seq<u8>)
    requires
        0 <= pre <= row.len(),
    ensures
        narrowed(widened(row, pre, cell), pre, pre + cell.len()) == row,
        widened(row, pre, cell).len() == row.len() + cell.len(),
        widened(row, pre, cell).subrange(pre, pre + cell.len()) == cell,
{
    let w = widened(row, pre, cell);
    assert(narrowed(w, pre, pre + cell.len()) =~= row);
    assert(w.subrange(pre, pre + cell.len()) =~= cell);
}

/// Putting back the cell that was taken out gives back the row.
pub proof fn law_widen_undoes_narrow(row: Seq<u8>, pre: int, post: int)
    requires
        0 <= pre <= post <= row.len(),
    ensures
        widened(narrowed(row, pre, post), pre, row.subrange(pre, post)) == row,
{
    assert(widened(narrowed(row, pre, post), pre, row.subrange(pre, post)) =~= row);
}

/// The other cells of a row stay: those before the new one where they are, and
/// those behind it further back by its width.
pub proof fn law_widen_keeps_cells(row: Seq<u8>, pre: int, cell: Seq<u8>, off: int, w: int)
    requires
        0 <= pre <= row.len(),
        0 <= off,
        0 <= w,
        off + w <= row.len(),
        off + w <= pre || pre <= off,
    ensures
        ({
            let at = if off + w <= pre {
                off
            } else {
                off + cell.len()
            };
            widened(row, pre, cell).subrange(at, at + w) == row.subrange(off, off + w)
        }),
{
    let at = if off + w <= pre {
        off
    } else {
        off + cell.len()
    };
    assert(widened(row, pre, cell).subrange(at, at + w) =~= row.subrange(off, off + w));
}

/// The rows of a strip, with cells put in.
pub open spec fn widened_rows(
    old: Seq<u8>,
    rw: int,
    pre: int,
    cells: Seq<u8>,
    w: int,
    n: nat,
) -> Seq<u8> {
    concat(
        Seq::new(n, |r: int| widened(field_at(old, rw, r, 0, rw), pre, field_at(cells, w, r, 0, w))),
    )
}

/// The rows of a strip, with cells taken out.
pub open spec fn narrowed_rows(old: Seq<u8>, rw: int, pre: int, post: int, n: nat) -> Seq<u8> {
    concat(Seq::new(n, |r: int| narrowed(field_at(old, rw, r, 0, rw), pre, post)))
}

/// Appends a part of a buffer to another.
fn append_part(out: &mut Vec<u8>, b: &[u8], off: usize, len: usize)
    requires
        off + len <= b@.len(),
    ensures
        final(out)@ == old(out)@ + b@.subrange(off as int, off + len),
{
    let mut part: Vec<u8> = copy_of(b, off, len);
    out.append(&mut part);
}

/// Puts cells of `w` bytes into the rows of a strip, behind their first `pre`
/// bytes.
pub fn widen_rows(
    old: &Vec<u8>,
    row_width: usize,
    pre: usize,
    cells: &Vec<u8>,
    w: usize,
    rows: usize,
) -> (r: Vec<u8>)
    requires
        old@.len() == rows * row_width,
        cells@.len() == rows * w,
        pre <= row_width,
    ensures
        r@ == widened_rows(old@, row_width as int, pre as int, cells@, w as int, rows as nat),
{
    let ghost rw = row_width as int;
    let ghost all = Seq::new(
        rows as nat,
        |r: int|
            widened(
                field_at(old@, rw, r, 0, rw),
                pre as int,
                field_at(cells@, w as int, r, 0, w as int),
            ),
    );
    let total: usize = old.len();
    let given: usize = cells.len();
    let mut out: Vec<u8> = Vec::new();
    let mut i: usize = 0;
    assert(all.take(0) =~= Seq::empty());
    while i < rows
        invariant
            i <= rows == all.len(),
            rw == row_width,
            old@.len() == rows * row_width == total,
            cells@.len() == rows * w == given,
            pre <= row_width,
            all == Seq::new(
                rows as nat,
                |r: int|
                    widened(
                        field_at(old@, rw, r, 0, rw),
                        pre as int,
                        field_at(cells@, w as int, r, 0, w as int),
                    ),
            ),
            out@ == concat(all.take(i as int)),
        decreases rows - i,
    {
        proof {
            lemma_unit_below(i as int, rows as int, rw);
            lemma_unit_below(i as int, rows as int, w as int);
            assert(all.take(i + 1).drop_last() =~= all.take(i as int));
        }
        let ghost head = out@;
        let at: usize = i * row_width;
        append_part(&mut out, old, at, pre);
        append_part(&mut out, cells, i * w, w);
        append_part(&mut out, old, at + pre, row_width - pre);
        proof {
            let row = field_at(old@, rw, i as int, 0, rw);
            assert(old@.subrange(at as int, at + pre) =~= row.take(pre as int));
            assert(old@.subrange(at + pre, at + pre + (row_width - pre)) =~= row.skip(pre as int));
            assert(out@ =~= head + all[i as int]);
        }
        i = i + 1;
    }
    assert(all.take(rows as int) =~= all);
    out
}

/// Takes the bytes from `pre` to `post` out of the rows of a strip.
pub fn narrow_rows(old: &Vec<u8>, row_width: usize, pre: usize, post: usize, rows: usize) -> (r:
    Vec<u8>)
    requires
        old@.len() == rows * row_width,
        pre <= post <= row_width,
    ensures
        r@ == narrowed_rows(old@, row_width as int, pre as int, post as int, rows as nat),
{
    let ghost rw = row_width as int;
    let ghost all = Seq::new(
        rows as nat,
        |r: int| narrowed(field_at(old@, rw, r, 0, rw), pre as int, post as int),
    );
    let total: usize = old.len();
    let mut out: Vec<u8> = Vec::new();
    let mut i: usize = 0;
    assert(all.take(0) =~= Seq::empty());
    while i < rows
        invariant
            i <= rows == all.len(),
            rw == row_width,
            old@.len() == rows * row_width == total,
            pre <= post <= row_width,
            all == Seq::new(
                rows as nat,
                |r: int| narrowed(field_at(old@, rw, r, 0, rw), pre as int, post as int),
            ),
            out@ == concat(all.take(i as int)),
        decreases rows - i,
    {
        proof {
            lemma_unit_below(i as int, rows as int, rw);
            assert(all.take(i + 1).drop_last() =~= all.take(i as int));
        }
        let ghost head = out@;
        let at: usize = i * row_width;
        append_part(&mut out, old, at, pre);
        append_part(&mut out, old, at + post, row_width - post);
        proof {
            let row = field_at(old@, rw, i as int, 0, rw);
            assert(old@.subrange(at as int, at + pre) =~= row.take(pre as int));
            assert(old@.subrange(at + post, at + post + (row_width - post)) =~= row.skip(
                post as int,
            ));
            assert(out@ =~= head + all[i as int]);
        }
        i = i + 1;
    }
    assert(all.take(rows as int) =~= all);
    out
}

/// What is made of a strip of rows that are read from the file is what the rows
/// of the file become.
pub proof fn law_widened_strip(
    f: Seq<u8>,
    data: int,
    rw: int,
    w: int,
    pre: int,
    s: RowStrip,
    cells: Seq<Seq<u8>>,
)
    requires
        0 <= data,
        0 <= rw,
        0 <= w,
        s.first + s.rows <= cells.len(),
        forall|r: int| 0 <= r < cells.len() ==> (#[trigger] cells[r]).len() == w,
        data + (s.first + s.rows) * rw <= f.len(),
    ensures
        widened_rows(
            f.subrange(data + s.first * rw, data + (s.first + s.rows) * rw),
            rw,
            pre,
            concat(cells.subrange(s.first as int, s.first + s.rows)),
            w,
            s.rows as nat,
        ) == strip_out(f, data, rw, s, |r: int, row: Seq<u8>| widened(row, pre, cells[r])),
{
    let a = s.first as int;
    let n = s.rows as int;
    let old = f.subrange(data + a * rw, data + (a + n) * rw);
    let part = cells.subrange(a, a + n);
    let bytes = concat(part);
    let t = |r: int, row: Seq<u8>| widened(row, pre, cells[r]);
    let x = Seq::new(
        n as nat,
        |r: int| widened(field_at(old, rw, r, 0, rw), pre, field_at(bytes, w, r, 0, w)),
    );
    let z = Seq::new(n as nat, |r: int| t(a + r, row_of(f, data, rw, a + r)));
    assert((a + n) * rw == a * rw + n * rw && 0 <= a * rw && 0 <= n * rw) by (nonlinear_arith)
        requires
            0 <= a,
            0 <= n,
            0 <= rw,
    ;
    lemma_concat_rows(part, w);
    assert forall|r: int| 0 <= r < n implies x[r] == z[r] by {
        lemma_unit_below(r, n, rw);
        lemma_unit_below(r, n, w);
        assert((a + r) * rw == a * rw + r * rw) by (nonlinear_arith);
        assert(field_at(old, rw, r, 0, rw) =~= row_of(f, data, rw, a + r));
        assert(part[r] == cells[a + r]);
        assert forall|y: int| 0 <= y < w implies field_at(bytes, w, r, 0, w)[y] == part[r][y] by {
            assert(grid(bytes, w, r, y) == part[r][y]);
        }
        assert(field_at(bytes, w, r, 0, w) =~= cells[a + r]);
    }
    assert(x =~= z);
}

/// The same for rows that get narrower.
pub proof fn law_narrowed_strip(f: Seq<u8>, data: int, rw: int, pre: int, post: int, s: RowStrip)
    requires
        0 <= data,
        0 <= rw,
        data + (s.first + s.rows) * rw <= f.len(),
    ensures
        narrowed_rows(
            f.subrange(data + s.first * rw, data + (s.first + s.rows) * rw),
            rw,
            pre,
            post,
            s.rows as nat,
        ) == strip_out(f, data, rw, s, |r: int, row: Seq<u8>| narrowed(row, pre, post)),
{
    let a = s.first as int;
    let n = s.rows as int;
    let old = f.subrange(data + a * rw, data + (a + n) * rw);
    let t = |r: int, row: Seq<u8>| narrowed(row, pre, post);
    let x = Seq::new(n as nat, |r: int| narrowed(field_at(old, rw, r, 0, rw), pre, post));
    let z = Seq::new(n as nat, |r: int| t(a + r, row_of(f, data, rw, a + r)));
    assert((a + n) * rw == a * rw + n * rw && 0 <= a * rw && 0 <= n * rw) by (nonlinear_arith)
        requires
            0 <= a,
            0 <= n,
            0 <= rw,
    ;
    assert forall|r: int| 0 <= r < n implies x[r] == z[r] by {
        lemma_unit_below(r, n, rw);
        assert((a + r) * rw == a * rw + r * rw) by (nonlinear_arith);
        assert(field_at(old, rw, r, 0, rw) =~= row_of(f, data, rw, a + r));
    }
    assert(x =~= z);
}

// The cells of a new column ------------------------------------------------

/// What is given for row `r` of a new column, in values of `size` bytes.
pub open spec fn given_cell(t: WriteTransform, buf: Seq<u8>, size: int, r: int) -> Result<
    Seq<u8>,
    CellError,
> {
    encoded(t, field_at(buf, size, r, 0, size))
}

/// The first of `k` rows from `first` on whose value does not go into its cell.
/// Rows count from the start of the strip.
pub open spec fn given_error(t: WriteTransform, buf: Seq<u8>, size: int, first: int, k: nat) -> Option<
    EditError,
>
    decreases k,
{
    if k == 0 {
        None
    } else {
        match given_error(t, buf, size, first, (k - 1) as nat) {
            Some(e) => Some(e),
            None => match given_cell(t, buf, size, first + k - 1) {
                Err(cell) => Some(EditError::NewCell { row: (k - 1) as usize, cell }),
                Ok(_) => None,
            },
        }
    }
}

proof fn lemma_given_error(
    t: WriteTransform,
    buf: Seq<u8>,
    size: int,
    first: int,
    m: nat,
    k: nat,
)
    requires
        m <= k,
        given_error(t, buf, size, first, m) is Some,
    ensures
        given_error(t, buf, size, first, k) == given_error(t, buf, size, first, m),
    decreases k,
{
    if m < k {
        lemma_given_error(t, buf, size, first, m, (k - 1) as nat);
    }
}

/// The cells of a new column in a strip.
pub fn encode_new_cells(
    t: WriteTransform,
    buf: &Vec<u8>,
    size: usize,
    first: usize,
    rows: usize,
) -> (v: Result<Vec<u8>, EditError>)
    requires
        transform_ok(t),
        source_size(t) <= size,
        (first + rows) * size <= buf@.len(),
    ensures
        match given_error(t, buf@, size as int, first as int, rows as nat) {
            Some(e) => v == Err::<Vec<u8>, EditError>(e),
            None => v matches Ok(c) && c@ == concat(
                Seq::new(
                    rows as nat,
                    |r: int| given_cell(t, buf@, size as int, first + r)->Ok_0,
                ),
            ),
        },
{
    let ghost sz = size as int;
    let ghost all = Seq::new(
        rows as nat,
        |r: int| given_cell(t, buf@, sz, first + r)->Ok_0,
    );
    let total: usize = buf.len();
    let mut out: Vec<u8> = Vec::new();
    let mut i: usize = 0;
    assert(all.take(0) =~= Seq::empty());
    while i < rows
        invariant
            i <= rows == all.len(),
            sz == size,
            source_size(t) <= size,
            transform_ok(t),
            (first + rows) * size <= buf@.len() == total,
            all == Seq::new(
                rows as nat,
                |r: int| given_cell(t, buf@, sz, first + r)->Ok_0,
            ),
            given_error(t, buf@, sz, first as int, i as nat) is None,
            out@ == concat(all.take(i as int)),
        decreases rows - i,
    {
        proof {
            lemma_unit_below(first + i, first + rows, sz);
            assert(all.take(i + 1).drop_last() =~= all.take(i as int));
        }
        let at: usize = skip_rows(first, i, rows, size, total);
        let src: Vec<u8> = copy_of(buf, at, size);
        match apply_transform_cell(t, &src) {
            Err(cell) => {
                proof {
                    lemma_given_error(
                        t,
                        buf@,
                        sz,
                        first as int,
                        (i + 1) as nat,
                        rows as nat,
                    );
                }
                return Err(EditError::NewCell { row: i, cell });
            },
            Ok(c) => {
                let mut piece: Vec<u8> = c;
                out.append(&mut piece);
            },
        }
        i = i + 1;
    }
    assert(all.take(rows as int) =~= all);
    Ok(out)
}

/// Where the value of row `first + i` starts, in values of `size` bytes.
fn skip_rows(first: usize, i: usize, rows: usize, size: usize, total: usize) -> (r: usize)
    requires
        i < rows,
        (first + rows) * size <= total,
    ensures
        r == (first + i) * size,
{
    proof {
        lemma_unit_below(first + i, first + rows, size as int);
    }
    if size == 0 {
        proof {
            assert((first + i) * size == 0) by (nonlinear_arith)
                requires
                    size == 0,
            ;
        }
        return 0;
    }
    proof {
        assert(first + rows <= total) by (nonlinear_arith)
            requires
                (first + rows) * size <= total,
                size >= 1,
                first >= 0,
                rows >= 0,
        ;
    }
    (first + i) * size
}

/// The descriptors of a new column in a strip.
pub fn descriptor_cells(kind: Descriptor, plans: &Vec<VlaCellPlan>, first: usize, rows: usize) -> (r:
    Vec<u8>)
    requires
        first + rows <= plans@.len(),
    ensures
        r@ == concat(
            Seq::new(
                rows as nat,
                |k: int|
                    descriptor_for(
                        kind,
                        plans@[first + k].nelements as nat,
                        plans@[first + k].offset as nat,
                    ),
            ),
        ),
{
    let ghost all = Seq::new(
        rows as nat,
        |k: int|
            descriptor_for(
                kind,
                plans@[first + k].nelements as nat,
                plans@[first + k].offset as nat,
            ),
    );
    let n: usize = plans.len();
    let mut out: Vec<u8> = Vec::new();
    let mut i: usize = 0;
    assert(all.take(0) =~= Seq::empty());
    while i < rows
        invariant
            i <= rows == all.len(),
            first + rows <= plans@.len() == n,
            all == Seq::new(
                rows as nat,
                |k: int|
                    descriptor_for(
                        kind,
                        plans@[first + k].nelements as nat,
                        plans@[first + k].offset as nat,
                    ),
            ),
            out@ == concat(all.take(i as int)),
        decreases rows - i,
    {
        proof {
            assert(all.take(i + 1).drop_last() =~= all.take(i as int));
        }
        let p: VlaCellPlan = plans[first + i];
        let mut d: Vec<u8> = write_descriptor(kind, p.nelements as u64, p.offset as u64);
        out.append(&mut d);
        i = i + 1;
    }
    assert(all.take(rows as int) =~= all);
    out
}

// The file -----------------------------------------------------------------

/// The file after a column has been put in: it is given its length, the heap
/// moves behind the wider rows, the rows get wider from the back, and what is
/// added to the heap is written. `cells` are those of the new column.
pub open spec fn column_inserted(
    file: Seq<u8>,
    offset: int,
    rw: int,
    w: int,
    pre: int,
    cells: Seq<Seq<u8>>,
    pcount: int,
    heap: Seq<u8>,
    per: nat,
) -> Seq<u8> {
    let n = cells.len() as int;
    let old = n * rw;
    let new = n * (rw + w);
    let sized = resized(
        file,
        extent_for(offset, old + pcount, new + pcount + heap.len(), file.len() as int),
    );
    let relocated = moved(sized, offset + old, offset + new, pcount);
    let rows = shuffled(
        relocated,
        offset,
        rw,
        rw + w,
        back_strips(n as nat, per),
        |r: int, row: Seq<u8>| widened(row, pre, cells[r]),
    );
    splice(rows, offset + new + pcount, heap)
}

/// How the file is changed where a column is put in: its length, the moves of
/// the heap, the strips in which rows get wider, and where what is added to the
/// heap goes.
#[derive(Debug)]
pub struct InsertLayout {
    pub extent: Extent,
    pub moves: Vec<Move>,
    pub strips: Vec<RowStrip>,
    pub heap_at: u64,
}

/// Lays out the change of a file where the rows of a table go from a width of
/// `row_width` bytes to `wide` bytes, and its heap from `pcount` bytes to
/// `total` bytes; an error where the file would be longer than 64 bits count.
pub fn plan_insert_layout(
    offset: u64,
    nrows: usize,
    row_width: usize,
    wide: usize,
    pcount: u64,
    total: u64,
    file_len: u64,
) -> (r: Result<InsertLayout, EditError>)
    requires
        row_width <= wide,
        pcount <= total,
    ensures
        ({
            let from = offset + nrows * row_width;
            let to = offset + nrows * wide;
            if !fits(offset as int, nrows * wide + total) {
                r == Err::<InsertLayout, EditError>(EditError::TooLarge)
            } else {
                r matches Ok(l) && l.extent == extent_for(
                    offset as int,
                    nrows * row_width + pcount,
                    nrows * wide + total,
                    file_len as int,
                ) && short_moves(l.moves@) && (forall|f: Seq<u8>|
                    holds(f, from, to, pcount as int) ==> #[trigger] applied(f, l.moves@) == moved(
                        f,
                        from,
                        to,
                        pcount as int,
                    )) && l.strips@ == back_strips(nrows as nat, strip_rows(nrows, wide) as nat)
                    && l.heap_at == to + pcount
            }
        }),
{
    proof {
        lemma_main_sizes(nrows as int, row_width as int, wide as int);
        law_padded(nrows * wide + total);
        lemma_padded_order(nrows * row_width + pcount, nrows * wide + total);
    }
    let new: u64 = match (nrows as u64).checked_mul(wide as u64) {
        Some(m) => m,
        None => {
            return Err(EditError::TooLarge);
        },
    };
    let end: u64 = match new.checked_add(total) {
        Some(m) => m,
        None => {
            return Err(EditError::TooLarge);
        },
    };
    let old: u64 = (nrows as u64) * (row_width as u64);
    match grow_or_shrink_data_extent(offset, old + pcount, end, file_len) {
        None => Err(EditError::TooLarge),
        Some(extent) => {
            let moves: Vec<Move> = relocate_region_forward(offset + old, offset + new, pcount);
            let strips: Vec<RowStrip> = strips_from_back(nrows, wide);
            Ok(InsertLayout { extent, moves, strips, heap_at: offset + new + pcount })
        },
    }
}

/// Wider rows take no fewer bytes.
proof fn lemma_main_sizes(n: int, a: int, b: int)
    requires
        0 <= n,
        0 <= a <= b,
    ensures
        0 <= n * a <= n * b,
{
    assert(0 <= n * a <= n * b) by (nonlinear_arith)
        requires
            0 <= n,
            0 <= a <= b,
    ;
}

/// A header that does not say where the heap starts has a reader look for it
/// behind the rows, where an edit of the columns moves it.
pub proof fn law_heap_base_behind_rows(nrows: usize, row_width: usize)
    requires
        nrows <= i64::MAX,
        row_width <= i64::MAX,
        nrows * row_width <= u64::MAX,
    ensures
        heap_base(Some(row_width as i64), Some(nrows as i64), None) == nrows * row_width,
{
    let x = count_of(Some(row_width as i64)) as int;
    let y = count_of(Some(nrows as i64)) as int;
    assert(x == row_width && y == nrows);
    assert(x * y == y * x) by (nonlinear_arith);
}

/// Putting a column in changes nothing outside the data. There each row has the
/// new cell and all that it had, and the heap is what it was, with what is
/// added behind it.
pub proof fn law_insert_column(
    file: Seq<u8>,
    offset: int,
    rw: int,
    w: int,
    pre: int,
    cells: Seq<Seq<u8>>,
    pcount: int,
    heap: Seq<u8>,
    per: nat,
)
    requires
        0 <= offset,
        0 <= pre <= rw,
        0 <= w,
        0 <= pcount,
        0 < per,
        cells.len() <= usize::MAX,
        forall|r: int| 0 <= r < cells.len() ==> (#[trigger] cells[r]).len() == w,
        offset + padded(cells.len() * rw + pcount) <= file.len() <= u64::MAX,
        fits(offset, cells.len() * (rw + w) + pcount + heap.len()),
    ensures
        ({
            let n = cells.len() as int;
            let old = n * rw;
            let new = n * (rw + w);
            let total = pcount + heap.len();
            let after = column_inserted(file, offset, rw, w, pre, cells, pcount, heap, per);
            &&& after.take(offset) == file.take(offset)
            &&& forall|r: int|
                0 <= r < n ==> #[trigger] row_of(after, offset, rw + w, r) == widened(
                    row_of(file, offset, rw, r),
                    pre,
                    cells[r],
                )
            &&& after.subrange(offset + new, offset + new + total) == file.subrange(
                offset + old,
                offset + old + pcount,
            ) + heap
            &&& after.skip(offset + padded(new + total)) == file.skip(
                offset + padded(old + pcount),
            )
        }),
{
    let n = cells.len() as int;
    let nw = rw + w;
    let old = n * rw;
    let new = n * nw;
    let total = pcount + heap.len();
    assert(0 <= old <= new) by (nonlinear_arith)
        requires
            0 <= n,
            0 <= rw <= nw,
            old == n * rw,
            new == n * nw,
    ;
    let t = |r: int, row: Seq<u8>| widened(row, pre, cells[r]);
    // Rows beyond those of the table get cells of the same width, so that the
    // new width is that of any row.
    let u = |r: int, row: Seq<u8>|
        if 0 <= r < n {
            widened(row, pre, cells[r])
        } else {
            Seq::new(nw as nat, |i: int| 0u8)
        };
    let sized = resized(
        file,
        extent_for(offset, old + pcount, new + total, file.len() as int),
    );
    law_padded(old + pcount);
    law_padded(new + total);
    lemma_padded_order(old + pcount, new + total);
    law_extent_keeps_the_rest(file, offset, old + pcount, new + total);
    let old_end = offset + padded(old + pcount);
    let new_end = offset + padded(new + total);
    assert forall|i: int| 0 <= i < old_end implies sized[i] == file[i] by {
        assert(sized.take(old_end)[i] == file.take(old_end)[i]);
    }
    let relocated = moved(sized, offset + old, offset + new, pcount);
    let strips = back_strips(n as nat, per);
    let rows = shuffled(relocated, offset, rw, nw, strips, t);
    let after = column_inserted(file, offset, rw, w, pre, cells, pcount, heap, per);
    assert(after == splice(rows, offset + new + pcount, heap));
    lemma_same_shuffle_back(relocated, offset, rw, nw, n as nat, per, n, t, u);
    assert forall|r: int, row: Seq<u8>| row.len() == rw implies (#[trigger] u(r, row)).len()
        == nw by {
        if 0 <= r < n {
            assert(cells[r].len() == w);
        }
    }
    law_widen_in_place(relocated, offset, rw, nw, n as nat, per, u);
    assert(reshaped(relocated, rows, offset, rw, nw, 0, n, u));
    assert(0 * nw == 0) by (nonlinear_arith);
    assert forall|r: int| 0 <= r < n implies #[trigger] row_of(after, offset, nw, r) == widened(
        row_of(file, offset, rw, r),
        pre,
        cells[r],
    ) by {
        lemma_unit_below(r, n, nw);
        lemma_unit_below(r, n, rw);
        assert(row_of(after, offset, nw, r) =~= row_of(rows, offset, nw, r));
        assert(row_of(relocated, offset, rw, r) =~= row_of(file, offset, rw, r));
        assert(row_of(rows, offset, nw, r) == u(r, row_of(relocated, offset, rw, r)));
    }
    assert(after.take(offset) =~= file.take(offset));
    assert(after.subrange(offset + new, offset + new + total) =~= file.subrange(
        offset + old,
        offset + old + pcount,
    ) + heap);
    assert(after.skip(new_end) =~= sized.skip(new_end));
}

/// What becomes of the rows rests on those alone.
proof fn lemma_same_shuffle_back(
    f: Seq<u8>,
    data: int,
    ow: int,
    nw: int,
    n: nat,
    per: nat,
    m: int,
    t: spec_fn(int, Seq<u8>) -> Seq<u8>,
    u: spec_fn(int, Seq<u8>) -> Seq<u8>,
)
    requires
        n <= m <= usize::MAX,
        forall|r: int, row: Seq<u8>| 0 <= r < m ==> #[trigger] t(r, row) == u(r, row),
    ensures
        shuffled(f, data, ow, nw, back_strips(n, per), t) == shuffled(
            f,
            data,
            ow,
            nw,
            back_strips(n, per),
            u,
        ),
    decreases n,
{
    let strips = back_strips(n, per);
    if n > 0 && per > 0 {
        let s = strips[0];
        assert(strips.drop_first() =~= back_strips(s.first as nat, per));
        let a = Seq::new(s.rows as nat, |r: int| t(s.first + r, row_of(f, data, ow, s.first + r)));
        let b = Seq::new(s.rows as nat, |r: int| u(s.first + r, row_of(f, data, ow, s.first + r)));
        assert(a =~= b);
        let g = splice(f, data + s.first * nw, concat(a));
        lemma_same_shuffle_back(g, data, ow, nw, s.first as nat, per, m, t, u);
    }
}

/// The file after a column has been taken out: the rows get narrower from the
/// front, the heap moves behind them, and the file is given its length.
pub open spec fn column_deleted(
    file: Seq<u8>,
    offset: int,
    rw: int,
    pre: int,
    post: int,
    n: nat,
    pcount: int,
    per: nat,
) -> Seq<u8> {
    let nw = rw - (post - pre);
    let old = n * rw;
    let new = n * nw;
    let rows = shuffled(
        file,
        offset,
        rw,
        nw,
        front_strips(0, n, per),
        |r: int, row: Seq<u8>| narrowed(row, pre, post),
    );
    let relocated = moved(rows, offset + old, offset + new, pcount);
    resized(relocated, extent_for(offset, old + pcount, new + pcount, file.len() as int))
}

/// How the file is changed where a column is taken out: the strips in which rows
/// get narrower, the moves of the heap, and the length of the file.
#[derive(Debug)]
pub struct DeleteLayout {
    pub strips: Vec<RowStrip>,
    pub moves: Vec<Move>,
    pub extent: Extent,
}

/// Lays out the change of a file where the rows of a table go from a width of
/// `row_width` bytes to `narrow` bytes in front of a heap of `pcount` bytes; an
/// error where the file is longer than 64 bits count.
pub fn plan_delete_layout(
    offset: u64,
    nrows: usize,
    row_width: usize,
    narrow: usize,
    pcount: u64,
    file_len: u64,
) -> (r: Result<DeleteLayout, EditError>)
    requires
        narrow <= row_width,
    ensures
        ({
            let from = offset + nrows * row_width;
            let to = offset + nrows * narrow;
            if !fits(offset as int, nrows * row_width + pcount) {
                r == Err::<DeleteLayout, EditError>(EditError::TooLarge)
            } else {
                r matches Ok(l) && l.strips@ == front_strips(
                    0,
                    nrows as nat,
                    strip_rows(nrows, row_width) as nat,
                ) && short_moves(l.moves@) && (forall|f: Seq<u8>|
                    holds(f, from, to, pcount as int) ==> #[trigger] applied(f, l.moves@) == moved(
                        f,
                        from,
                        to,
                        pcount as int,
                    )) && l.extent == extent_for(
                    offset as int,
                    nrows * row_width + pcount,
                    nrows * narrow + pcount,
                    file_len as int,
                )
            }
        }),
{
    proof {
        lemma_main_sizes(nrows as int, narrow as int, row_width as int);
        law_padded(nrows * row_width + pcount);
        lemma_padded_order(nrows * narrow + pcount, nrows * row_width + pcount);
    }
    let old: u64 = match (nrows as u64).checked_mul(row_width as u64) {
        Some(m) => m,
        None => {
            return Err(EditError::TooLarge);
        },
    };
    let end: u64 = match old.checked_add(pcount) {
        Some(m) => m,
        None => {
            return Err(EditError::TooLarge);
        },
    };
    let new: u64 = (nrows as u64) * (narrow as u64);
    match grow_or_shrink_data_extent(offset, end, new + pcount, file_len) {
        None => Err(EditError::TooLarge),
        Some(extent) => {
            let strips: Vec<RowStrip> = strips_from_front(nrows, row_width);
            let moves: Vec<Move> = relocate_region_backward(offset + old, offset + new, pcount);
            Ok(DeleteLayout { strips, moves, extent })
        },
    }
}

/// Taking a column out changes nothing outside the data. There each row has all
/// that it had but the cell, and the heap is what it was.
pub proof fn law_delete_column(
    file: Seq<u8>,
    offset: int,
    rw: int,
    pre: int,
    post: int,
    n: nat,
    pcount: int,
    per: nat,
)
    requires
        0 <= offset,
        0 <= pre <= post <= rw,
        0 <= pcount,
        0 < per,
        n <= usize::MAX,
        offset + padded(n * rw + pcount) <= file.len() <= u64::MAX,
    ensures
        ({
            let nw = rw - (post - pre);
            let old = n * rw;
            let new = n * nw;
            let after = column_deleted(file, offset, rw, pre, post, n, pcount, per);
            &&& after.take(offset) == file.take(offset)
            &&& forall|r: int|
                0 <= r < n ==> #[trigger] row_of(after, offset, nw, r) == narrowed(
                    row_of(file, offset, rw, r),
                    pre,
                    post,
                )
            &&& after.subrange(offset + new, offset + new + pcount) == file.subrange(
                offset + old,
                offset + old + pcount,
            )
            &&& after.skip(offset + padded(new + pcount)) == file.skip(
                offset + padded(old + pcount),
            )
        }),
{
    let nw = rw - (post - pre);
    let old = n * rw;
    let new = n * nw;
    assert(0 <= new <= old) by (nonlinear_arith)
        requires
            0 <= n,
            0 <= nw <= rw,
            old == n * rw,
            new == n * nw,
    ;
    let t = |r: int, row: Seq<u8>| narrowed(row, pre, post);
    law_padded(old + pcount);
    law_padded(new + pcount);
    lemma_padded_order(new + pcount, old + pcount);
    law_narrow_in_place(file, offset, rw, nw, 0, n, per, t);
    let rows = shuffled(file, offset, rw, nw, front_strips(0, n, per), t);
    assert(reshaped(file, rows, offset, rw, nw, 0, n as int, t));
    let relocated = moved(rows, offset + old, offset + new, pcount);
    law_extent_keeps_the_rest(relocated, offset, old + pcount, new + pcount);
    let after = column_deleted(file, offset, rw, pre, post, n, pcount, per);
    let old_end = offset + padded(old + pcount);
    let new_end = offset + padded(new + pcount);
    let kept = if old <= new {
        old_end
    } else {
        new_end
    };
    assert(kept == new_end);
    assert forall|i: int| 0 <= i < new_end implies after[i] == relocated[i] by {
        assert(after.take(new_end)[i] == relocated.take(new_end)[i]);
    }
    assert(0 * nw == 0) by (nonlinear_arith);
    assert forall|r: int| 0 <= r < n implies #[trigger] row_of(after, offset, nw, r) == narrowed(
        row_of(file, offset, rw, r),
        pre,
        post,
    ) by {
        lemma_unit_below(r, n as int, nw);
        assert(row_of(after, offset, nw, r) =~= row_of(rows, offset, nw, r));
        assert(row_of(rows, offset, nw, r) == t(r, row_of(file, offset, rw, r)));
    }
    assert(after.take(offset) =~= file.take(offset));
    assert(after.subrange(offset + new, offset + new + pcount) =~= file.subrange(
        offset + old,
        offset + old + pcount,
    ));
    assert(after.skip(new_end) == relocated.skip(old_end));
    assert(relocated.skip(old_end) =~= file.skip(old_end));
}

/// Rows are the same where each of them is.
proof fn lemma_rows_same(a: Seq<u8>, b: Seq<u8>, data: int, w: int, n: int)
    requires
        0 <= data,
        0 <= w,
        0 <= n,
        data + n * w <= a.len(),
        data + n * w <= b.len(),
        forall|r: int| 0 <= r < n ==> #[trigger] row_of(a, data, w, r) == row_of(b, data, w, r),
    ensures
        a.subrange(data, data + n * w) == b.subrange(data, data + n * w),
{
    let x = a.subrange(data, data + n * w);
    let z = b.subrange(data, data + n * w);
    assert forall|i: int| 0 <= i < n * w implies x[i] == z[i] by {
        if w == 0 {
            assert(n * w == 0) by (nonlinear_arith)
                requires
                    w == 0,
            ;
        }
        lemma_unit(i, w);
        let r = i / w;
        let y = i % w;
        if r >= n {
            assert(r * w >= n * w) by (nonlinear_arith)
                requires
                    r >= n,
                    w >= 0,
            ;
        }
        lemma_unit_below(r, n, w);
        assert(row_of(a, data, w, r)[y] == row_of(b, data, w, r)[y]);
    }
    assert(x =~= z);
}

/// Taking out the column that was put in gives back the rows and, with what was
/// added behind it, the heap, and leaves all else alone.
pub proof fn law_delete_undoes_insert(
    file: Seq<u8>,
    offset: int,
    rw: int,
    w: int,
    pre: int,
    cells: Seq<Seq<u8>>,
    pcount: int,
    heap: Seq<u8>,
    per: nat,
    per_back: nat,
)
    requires
        0 <= offset,
        0 <= pre <= rw,
        0 <= w,
        0 <= pcount,
        0 < per,
        0 < per_back,
        cells.len() <= usize::MAX,
        forall|r: int| 0 <= r < cells.len() ==> (#[trigger] cells[r]).len() == w,
        offset + padded(cells.len() * rw + pcount) <= file.len() <= u64::MAX,
        file.len() + padded(cells.len() * (rw + w) + pcount + heap.len()) <= u64::MAX,
        fits(offset, cells.len() * (rw + w) + pcount + heap.len()),
    ensures
        ({
            let n = cells.len();
            let total = pcount + heap.len();
            let wide = column_inserted(file, offset, rw, w, pre, cells, pcount, heap, per);
            let back = column_deleted(wide, offset, rw + w, pre, pre + w, n, total, per_back);
            &&& back.take(offset) == file.take(offset)
            &&& back.subrange(offset, offset + n * rw + total) == file.subrange(
                offset,
                offset + n * rw + pcount,
            ) + heap
            &&& back.skip(offset + padded(n * rw + total)) == file.skip(
                offset + padded(n * rw + pcount),
            )
        }),
{
    let n = cells.len();
    let nw = rw + w;
    let total = pcount + heap.len();
    let wide = column_inserted(file, offset, rw, w, pre, cells, pcount, heap, per);
    let back = column_deleted(wide, offset, nw, pre, pre + w, n, total, per_back);
    let old = n * rw;
    let new = n * nw;
    assert(0 <= old <= new) by (nonlinear_arith)
        requires
            0 <= n,
            0 <= rw <= nw,
            old == n * rw,
            new == n * nw,
    ;
    law_padded(old + pcount);
    law_padded(old + total);
    law_padded(new + total);
    lemma_padded_order(old + pcount, new + total);
    lemma_padded_order(old + total, new + total);
    law_insert_column(file, offset, rw, w, pre, cells, pcount, heap, per);
    lemma_inserted_len(file, offset, rw, w, pre, cells, pcount, heap, per);
    law_delete_column(wide, offset, nw, pre, pre + w, n, total, per_back);
    lemma_deleted_len(wide, offset, nw, pre, pre + w, n, total, per_back);
    assert(offset + old + total <= back.len());
    assert forall|r: int| 0 <= r < n implies #[trigger] row_of(back, offset, rw, r) == row_of(
        file,
        offset,
        rw,
        r,
    ) by {
        lemma_unit_below(r, n as int, rw);
        let row = row_of(file, offset, rw, r);
        assert(row.len() == rw);
        assert(cells[r].len() == w);
        law_narrow_undoes_widen(row, pre, cells[r]);
        assert(row_of(wide, offset, nw, r) == widened(row, pre, cells[r]));
        assert(row_of(back, offset, nw - w, r) == narrowed(
            row_of(wide, offset, nw, r),
            pre,
            pre + w,
        ));
    }
    lemma_rows_same(back, file, offset, rw, n as int);
    let kept = file.subrange(offset + old, offset + old + pcount) + heap;
    assert(back.subrange(offset + old, offset + old + total) == kept);
    let x = back.subrange(offset, offset + old + total);
    let z = file.subrange(offset, offset + old + pcount) + heap;
    assert forall|i: int| 0 <= i < old + total implies x[i] == z[i] by {
        if i < old {
            assert(back.subrange(offset, offset + old)[i] == file.subrange(
                offset,
                offset + old,
            )[i]);
        } else {
            assert(back.subrange(offset + old, offset + old + total)[i - old] == kept[i - old]);
        }
    }
    assert(x =~= z);
}

proof fn lemma_shuffled_len(
    f: Seq<u8>,
    data: int,
    ow: int,
    nw: int,
    strips: Seq<RowStrip>,
    t: spec_fn(int, Seq<u8>) -> Seq<u8>,
)
    ensures
        shuffled(f, data, ow, nw, strips, t).len() == f.len(),
    decreases strips.len(),
{
    if strips.len() > 0 {
        let s = strips[0];
        let g = splice(f, data + s.first * nw, strip_out(f, data, ow, s, t));
        lemma_shuffled_len(g, data, ow, nw, strips.drop_first(), t);
    }
}

proof fn lemma_inserted_len(
    file: Seq<u8>,
    offset: int,
    rw: int,
    w: int,
    pre: int,
    cells: Seq<Seq<u8>>,
    pcount: int,
    heap: Seq<u8>,
    per: nat,
)
    requires
        0 <= offset,
        0 <= rw,
        0 <= w,
        0 <= pcount,
        offset + padded(cells.len() * rw + pcount) <= file.len() <= u64::MAX,
        fits(offset, cells.len() * (rw + w) + pcount + heap.len()),
    ensures
        column_inserted(file, offset, rw, w, pre, cells, pcount, heap, per).len() == file.len()
            - padded(cells.len() * rw + pcount) + padded(
            cells.len() * (rw + w) + pcount + heap.len(),
        ),
{
    let n = cells.len() as int;
    let old = n * rw;
    let new = n * (rw + w);
    assert(0 <= old <= new) by (nonlinear_arith)
        requires
            0 <= n,
            0 <= rw,
            0 <= w,
            old == n * rw,
            new == n * (rw + w),
    ;
    let sized = resized(
        file,
        extent_for(offset, old + pcount, new + pcount + heap.len(), file.len() as int),
    );
    law_extent_keeps_the_rest(file, offset, old + pcount, new + pcount + heap.len());
    let relocated = moved(sized, offset + old, offset + new, pcount);
    lemma_shuffled_len(
        relocated,
        offset,
        rw,
        rw + w,
        back_strips(n as nat, per),
        |r: int, row: Seq<u8>| widened(row, pre, cells[r]),
    );
}

proof fn lemma_deleted_len(
    file: Seq<u8>,
    offset: int,
    rw: int,
    pre: int,
    post: int,
    n: nat,
    pcount: int,
    per: nat,
)
    requires
        0 <= offset,
        0 <= pre <= post <= rw,
        0 <= pcount,
        offset + padded(n * rw + pcount) <= file.len() <= u64::MAX,
    ensures
        column_deleted(file, offset, rw, pre, post, n, pcount, per).len() == file.len() - padded(
            n * rw + pcount,
        ) + padded(n * (rw - (post - pre)) + pcount),
{
    let nw = rw - (post - pre);
    let old = n * rw;
    let new = n * nw;
    assert(0 <= new <= old) by (nonlinear_arith)
        requires
            0 <= n,
            0 <= nw <= rw,
            old == n * rw,
            new == n * nw,
    ;
    lemma_padded_order(new + pcount, old + pcount);
    let t = |r: int, row: Seq<u8>| narrowed(row, pre, post);
    lemma_shuffled_len(file, offset, rw, nw, front_strips(0, n, per), t);
    let rows = shuffled(file, offset, rw, nw, front_strips(0, n, per), t);
    law_extent_keeps_the_rest(
        moved(rows, offset + old, offset + new, pcount),
        offset,
        old + pcount,
        new + pcount,
    );
}

// Where the heap is found --------------------------------------------------

/// Where the heap of a table stands that an edit accepts: right behind the rows,
/// whether or not the header says so.
pub proof fn law_accepted_heap_base(nrows: usize, row_width: usize, theap: i64)
    requires
        custom_heap(theap, nrows, row_width) is None,
        nrows <= i64::MAX,
        row_width <= i64::MAX,
        nrows * row_width <= u64::MAX,
    ensures
        heap_base(Some(row_width as i64), Some(nrows as i64), Some(theap)) == nrows * row_width,
{
    law_heap_base_behind_rows(nrows, row_width);
}

/// After a column has been taken out a reader finds the heap as it was: the cards
/// of the table then say nothing of its place, and it stands behind the rows.
pub proof fn law_heap_found_after_delete(
    file: Seq<u8>,
    offset: int,
    row_width: usize,
    narrow: usize,
    pre: int,
    nrows: usize,
    pcount: int,
    per: nat,
    theap: i64,
)
    requires
        0 <= offset,
        narrow <= row_width,
        0 <= pre <= narrow,
        0 <= pcount,
        0 < per,
        nrows <= i64::MAX,
        row_width <= i64::MAX,
        offset + padded(nrows * row_width + pcount) <= file.len() <= u64::MAX,
        custom_heap(theap, nrows, row_width) is None,
    ensures
        ({
            let after = column_deleted(
                file,
                offset,
                row_width as int,
                pre,
                pre + (row_width - narrow),
                nrows as nat,
                pcount,
                per,
            );
            let from = offset + heap_base(
                Some(row_width as i64),
                Some(nrows as i64),
                Some(theap),
            );
            let to = offset + heap_base(Some(narrow as i64), Some(nrows as i64), None);
            after.subrange(to, to + pcount) == file.subrange(from, from + pcount)
        }),
{
    lemma_main_sizes(nrows as int, narrow as int, row_width as int);
    law_padded(nrows * row_width + pcount);
    law_accepted_heap_base(nrows, row_width, theap);
    law_heap_base_behind_rows(nrows, narrow);
    law_delete_column(
        file,
        offset,
        row_width as int,
        pre,
        pre + (row_width - narrow),
        nrows as nat,
        pcount,
        per,
    );
}

/// After a column has been put in a reader finds the heap as it was, with what
/// was added behind it.
pub proof fn law_heap_found_after_insert(
    file: Seq<u8>,
    offset: int,
    row_width: usize,
    wide: usize,
    pre: int,
    cells: Seq<Seq<u8>>,
    nrows: usize,
    pcount: int,
    heap: Seq<u8>,
    per: nat,
    theap: i64,
)
    requires
        0 <= offset,
        row_width <= wide,
        0 <= pre <= row_width,
        0 <= pcount,
        0 < per,
        nrows <= i64::MAX,
        wide <= i64::MAX,
        cells.len() == nrows,
        forall|r: int| 0 <= r < cells.len() ==> (#[trigger] cells[r]).len() == wide - row_width,
        offset + padded(nrows * row_width + pcount) <= file.len() <= u64::MAX,
        fits(offset, nrows * wide + pcount + heap.len()),
        custom_heap(theap, nrows, row_width) is None,
    ensures
        ({
            let after = column_inserted(
                file,
                offset,
                row_width as int,
                wide - row_width,
                pre,
                cells,
                pcount,
                heap,
                per,
            );
            let from = offset + heap_base(
                Some(row_width as i64),
                Some(nrows as i64),
                Some(theap),
            );
            let to = offset + heap_base(Some(wide as i64), Some(nrows as i64), None);
            after.subrange(to, to + pcount + heap.len()) == file.subrange(from, from + pcount)
                + heap
        }),
{
    lemma_main_sizes(nrows as int, row_width as int, wide as int);
    law_padded(nrows * wide + pcount + heap.len());
    law_accepted_heap_base(nrows, row_width, theap);
    law_heap_base_behind_rows(nrows, wide);
    law_insert_column(
        file,
        offset,
        row_width as int,
        wide - row_width,
        pre,
        cells,
        pcount,
        heap,
        per,
    );
}

} // verus!
