//! Rebuilding the heap with nothing in it but what descriptors point to.

use vstd::prelude::*;

use crate::bytes::{
    copy_of, field_at, lemma_field_splice, lemma_unit_below, pow256, splice, write_at,
};
use crate::columns::{
    Column, ColumnView, Letter, any_var_column, bytes_per_element, cell_bytes, column_ok,
    columns_fill, columns_ok, has_var, lemma_columns_fill, views,
};
use crate::error::{CellError, EditError};
use crate::heap::{
    descriptor_for, descriptor_value, half_size, law_descriptor_round_trip, read_descriptor,
    write_descriptor,
};

verus! {

// What is in use -----------------------------------------------------------

/// The cell of column `i` in row `r`, in rows of `rw` bytes each.
pub open spec fn col_field(cols: Seq<ColumnView>, main: Seq<u8>, rw: int, r: int, i: int) -> Seq<
    u8,
> {
    field_at(main, rw, r, cols[i].byte_offset as int, cols[i].byte_width as int)
}

/// The count and the offset in the descriptor of column `i` in row `r`.
pub open spec fn descriptor_at(
    cols: Seq<ColumnView>,
    main: Seq<u8>,
    rw: int,
    r: int,
    i: int,
) -> (int, int) {
    descriptor_value(cols[i].var_kind->0, col_field(cols, main, rw, r, i))
}

/// The bytes in the heap that a descriptor points to, or what is wrong with it.
pub open spec fn pointed(letter: Letter, d: (int, int), heap: Seq<u8>) -> Result<
    Seq<u8>,
    CellError,
> {
    let (n, off) = d;
    let end = off + cell_bytes(letter, n as nat);
    if n < 0 || off < 0 {
        Err(CellError::NegativeDescriptor { nelements: n as i64, heap_offset: off as i64 })
    } else if end > u64::MAX {
        Err(CellError::TooLarge { nelements: n as i64, heap_offset: off as i64 })
    } else if end > heap.len() {
        Err(CellError::PastHeap { end: end as u64, heap: heap.len() as u64 })
    } else {
        Ok(heap.subrange(off, end))
    }
}

/// The bytes in the heap of the cell of column `i` in row `r`; none where the
/// column has no cells there.
pub open spec fn live_cell(
    cols: Seq<ColumnView>,
    main: Seq<u8>,
    rw: int,
    heap: Seq<u8>,
    r: int,
    i: int,
) -> Result<Seq<u8>, CellError> {
    if cols[i].var_kind is Some {
        pointed(cols[i].letter, descriptor_at(cols, main, rw, r, i), heap)
    } else {
        Ok(Seq::empty())
    }
}

/// The bytes in the heap of the first `k` columns in row `r`.
pub open spec fn live_row(
    cols: Seq<ColumnView>,
    main: Seq<u8>,
    rw: int,
    heap: Seq<u8>,
    r: int,
    k: int,
) -> Seq<u8>
    decreases k,
{
    if k <= 0 {
        Seq::empty()
    } else {
        live_row(cols, main, rw, heap, r, k - 1) + live_cell(cols, main, rw, heap, r, k - 1)->Ok_0
    }
}

/// The bytes in the heap of the first `n` rows, row by row.
pub open spec fn live_rows(
    cols: Seq<ColumnView>,
    main: Seq<u8>,
    rw: int,
    heap: Seq<u8>,
    n: int,
) -> Seq<u8>
    decreases n,
{
    if n <= 0 {
        Seq::empty()
    } else {
        live_rows(cols, main, rw, heap, n - 1) + live_row(
            cols,
            main,
            rw,
            heap,
            n - 1,
            cols.len() as int,
        )
    }
}

/// The first descriptor among the first `k` columns of row `r` that points to
/// no cell.
pub open spec fn live_row_error(
    cols: Seq<ColumnView>,
    main: Seq<u8>,
    rw: int,
    heap: Seq<u8>,
    r: int,
    k: nat,
) -> Option<EditError>
    decreases k,
{
    if k == 0 {
        None
    } else {
        match live_row_error(cols, main, rw, heap, r, (k - 1) as nat) {
            Some(e) => Some(e),
            None => match live_cell(cols, main, rw, heap, r, k - 1) {
                Err(cell) => Some(
                    EditError::Cell { column: (k - 1) as usize, row: r as usize, cell },
                ),
                Ok(_) => None,
            },
        }
    }
}

/// The first descriptor in the first `n` rows that points to no cell.
pub open spec fn live_error(
    cols: Seq<ColumnView>,
    main: Seq<u8>,
    rw: int,
    heap: Seq<u8>,
    n: nat,
) -> Option<EditError>
    decreases n,
{
    if n == 0 {
        None
    } else {
        match live_error(cols, main, rw, heap, (n - 1) as nat) {
            Some(e) => Some(e),
            None => live_row_error(cols, main, rw, heap, n - 1, cols.len()),
        }
    }
}

proof fn lemma_live_row_error(
    cols: Seq<ColumnView>,
    main: Seq<u8>,
    rw: int,
    heap: Seq<u8>,
    r: int,
    m: nat,
    k: nat,
)
    requires
        m <= k,
    ensures
        live_row_error(cols, main, rw, heap, r, m) is Some ==> live_row_error(
            cols,
            main,
            rw,
            heap,
            r,
            k,
        ) == live_row_error(cols, main, rw, heap, r, m),
    decreases k,
{
    if m < k {
        lemma_live_row_error(cols, main, rw, heap, r, m, (k - 1) as nat);
    }
}

proof fn lemma_live_error(
    cols: Seq<ColumnView>,
    main: Seq<u8>,
    rw: int,
    heap: Seq<u8>,
    m: nat,
    n: nat,
)
    requires
        m <= n,
    ensures
        live_error(cols, main, rw, heap, m) is Some ==> live_error(cols, main, rw, heap, n)
            == live_error(cols, main, rw, heap, m),
    decreases n,
{
    if m < n {
        lemma_live_error(cols, main, rw, heap, m, (n - 1) as nat);
    }
}

/// Where no descriptor is wrong, each one points to a cell.
pub proof fn lemma_all_live(
    cols: Seq<ColumnView>,
    main: Seq<u8>,
    rw: int,
    heap: Seq<u8>,
    n: nat,
    r: int,
    i: int,
)
    requires
        live_error(cols, main, rw, heap, n) is None,
        0 <= r < n,
        0 <= i < cols.len(),
    ensures
        live_cell(cols, main, rw, heap, r, i) is Ok,
{
    lemma_live_error(cols, main, rw, heap, (r + 1) as nat, n);
    lemma_live_row_error(cols, main, rw, heap, r, (i + 1) as nat, cols.len());
}

/// Where the cell of column `i` in row `r` stands in the new heap.
pub open spec fn packed_offset(
    cols: Seq<ColumnView>,
    main: Seq<u8>,
    rw: int,
    heap: Seq<u8>,
    r: int,
    i: int,
) -> nat {
    live_rows(cols, main, rw, heap, r).len() + live_row(cols, main, rw, heap, r, i).len()
}

/// What becomes of the cell of column `i` in row `r`: a descriptor keeps its
/// count and has a new offset, all else stays.
pub open spec fn packed_field(
    cols: Seq<ColumnView>,
    main: Seq<u8>,
    rw: int,
    heap: Seq<u8>,
    r: int,
    i: int,
) -> Seq<u8> {
    if cols[i].var_kind is Some {
        descriptor_for(
            cols[i].var_kind->0,
            descriptor_at(cols, main, rw, r, i).0 as nat,
            packed_offset(cols, main, rw, heap, r, i),
        )
    } else {
        col_field(cols, main, rw, r, i)
    }
}

/// Whether `now` is `main` with the cells before column `i` of row `r` as they
/// are to be, and the others as they were.
pub open spec fn packed_upto(
    cols: Seq<ColumnView>,
    main: Seq<u8>,
    now: Seq<u8>,
    rw: int,
    heap: Seq<u8>,
    n: int,
    r: int,
    i: int,
) -> bool {
    &&& now.len() == main.len()
    &&& forall|q: int, j: int|
        0 <= q < n && 0 <= j < cols.len() ==> #[trigger] col_field(cols, now, rw, q, j) == if q < r
            || (q == r && j < i) {
            packed_field(cols, main, rw, heap, q, j)
        } else {
            col_field(cols, main, rw, q, j)
        }
}

/// Whether `now` are the rows of `main` with every descriptor pointing into the
/// new heap.
pub open spec fn is_packed(
    cols: Seq<ColumnView>,
    main: Seq<u8>,
    now: Seq<u8>,
    rw: int,
    heap: Seq<u8>,
    n: int,
) -> bool {
    packed_upto(cols, main, now, rw, heap, n, n, 0)
}

// Repacking ----------------------------------------------------------------

/// Why a table whose heap does not stand right behind the rows is refused.
pub open spec fn custom_heap(theap: i64, nrows: usize, row_width: usize) -> Option<EditError> {
    if theap > 0 && theap != nrows * row_width {
        Some(
            EditError::CustomHeap {
                theap,
                main: if nrows * row_width > u64::MAX {
                    u64::MAX
                } else {
                    (nrows * row_width) as u64
                },
            },
        )
    } else {
        None
    }
}

/// Refuses a heap that does not stand right behind the rows. `theap` is what
/// the header says of it, 0 where it says nothing.
pub fn reject_non_default_theap(theap: i64, nrows: usize, row_width: usize) -> (r: Result<
    (),
    EditError,
>)
    ensures
        match custom_heap(theap, nrows, row_width) {
            Some(e) => r == Err::<(), EditError>(e),
            None => r is Ok,
        },
{
    let main: u64 = match (nrows as u64).checked_mul(row_width as u64) {
        Some(m) => m,
        None => u64::MAX,
    };
    if theap > 0 && theap as u64 != main {
        Err(EditError::CustomHeap { theap, main })
    } else {
        Ok(())
    }
}

/// Says whether there is a heap to repack: a table without cells in it, without
/// bytes in it or without rows is left alone.
pub fn repack_applies(
    columns: &[Column],
    nrows: usize,
    row_width: usize,
    pcount: u64,
    theap: i64,
) -> (r: Result<bool, EditError>)
    ensures
        if has_var(views(columns@)) && pcount != 0 && nrows != 0 {
            match custom_heap(theap, nrows, row_width) {
                Some(e) => r == Err::<bool, EditError>(e),
                None => r == Ok::<bool, EditError>(true),
            }
        } else {
            r == Ok::<bool, EditError>(false)
        },
{
    if !any_var_column(columns) {
        return Ok(false);
    }
    if pcount == 0 || nrows == 0 {
        return Ok(false);
    }
    match reject_non_default_theap(theap, nrows, row_width) {
        Err(e) => Err(e),
        Ok(_) => Ok(true),
    }
}

/// The bytes of `n` elements; nothing where 64 bits do not hold that.
fn wide_cell_bytes(letter: Letter, n: u64) -> (r: Option<u64>)
    ensures
        match r {
            Some(b) => b == cell_bytes(letter, n as nat),
            None => cell_bytes(letter, n as nat) > u64::MAX,
        },
{
    match bytes_per_element(letter) {
        Some(w) => n.checked_mul(w as u64),
        None => {
            let more: u64 = if n % 8 == 0 {
                0
            } else {
                1
            };
            Some(n / 8 + more)
        },
    }
}

/// The bytes in the heap that a descriptor points to, or what is wrong with it.
fn pointed_bytes(letter: Letter, n: i64, off: i64, heap: &Vec<u8>) -> (r: Result<
    Vec<u8>,
    CellError,
>)
    ensures
        match r {
            Ok(v) => pointed(letter, (n as int, off as int), heap@) == Ok::<Seq<u8>, CellError>(
                v@,
            ),
            Err(e) => pointed(letter, (n as int, off as int), heap@) == Err::<Seq<u8>, CellError>(
                e,
            ),
        },
{
    if n < 0 || off < 0 {
        return Err(CellError::NegativeDescriptor { nelements: n, heap_offset: off });
    }
    let len: u64 = match wide_cell_bytes(letter, n as u64) {
        Some(b) => b,
        None => {
            return Err(CellError::TooLarge { nelements: n, heap_offset: off });
        },
    };
    let end: u64 = match len.checked_add(off as u64) {
        Some(e) => e,
        None => {
            return Err(CellError::TooLarge { nelements: n, heap_offset: off });
        },
    };
    let total: usize = heap.len();
    if end > total as u64 {
        return Err(CellError::PastHeap { end, heap: total as u64 });
    }
    Ok(copy_of(heap, off as usize, len as usize))
}

/// Builds a heap of nothing but the cells that descriptors point to, row by
/// row, and turns the descriptors to it. The rows are `main`.
fn pack_cells(
    columns: &[Column],
    main: &mut Vec<u8>,
    heap: &Vec<u8>,
    nrows: usize,
    row_width: usize,
) -> (v: Result<Vec<u8>, EditError>)
    requires
        columns_ok(views(columns@), row_width as int),
        old(main)@.len() == nrows * row_width,
    ensures
        match live_error(
            views(columns@),
            old(main)@,
            row_width as int,
            heap@,
            nrows as nat,
        ) {
            Some(e) => v == Err::<Vec<u8>, EditError>(e),
            None => v matches Ok(h) && h@ == live_rows(
                views(columns@),
                old(main)@,
                row_width as int,
                heap@,
                nrows as int,
            ) && is_packed(
                views(columns@),
                old(main)@,
                final(main)@,
                row_width as int,
                heap@,
                nrows as int,
            ),
        },
{
    let n: usize = columns.len();
    let ghost cols = views(columns@);
    let ghost rw = row_width as int;
    let ghost was = main@;
    let mut out: Vec<u8> = Vec::new();
    proof {
        lemma_columns_fill(cols, rw);
    }
    let mut r: usize = 0;
    while r < nrows
        invariant
            r <= nrows,
            n == columns@.len() == cols.len(),
            cols == views(columns@),
            rw == row_width,
            was == old(main)@,
            columns_ok(cols, rw),
            was.len() == nrows * row_width,
            live_error(cols, was, rw, heap@, r as nat) is None,
            out@ == live_rows(cols, was, rw, heap@, r as int),
            packed_upto(cols, was, main@, rw, heap@, nrows as int, r as int, 0),
        decreases nrows - r,
    {
        let ghost head = out@;
        let mut i: usize = 0;
        assert(head =~= head + live_row(cols, was, rw, heap@, r as int, 0));
        while i < n
            invariant
                i <= n,
                r < nrows,
                n == columns@.len() == cols.len(),
                cols == views(columns@),
                rw == row_width,
                was == old(main)@,
                columns_ok(cols, rw),
                was.len() == nrows * row_width,
                live_error(cols, was, rw, heap@, r as nat) is None,
                live_row_error(cols, was, rw, heap@, r as int, i as nat) is None,
                head == live_rows(cols, was, rw, heap@, r as int),
                out@ == head + live_row(cols, was, rw, heap@, r as int, i as int),
                packed_upto(cols, was, main@, rw, heap@, nrows as int, r as int, i as int),
            decreases n - i,
        {
            let col: &Column = &columns[i];
            assert(cols[i as int] == col@);
            let ghost before = main@;
            let ghost here = live_row(cols, was, rw, heap@, r as int, i as int);
            proof {
                lemma_columns_fill(cols, rw);
                assert(column_ok(cols[i as int]));
                lemma_unit_below(r as int, nrows as int, rw);
                assert(col_field(cols, before, rw, r as int, i as int) == col_field(
                    cols,
                    was,
                    rw,
                    r as int,
                    i as int,
                ));
            }
            match col.var_kind {
                None => {
                    proof {
                        assert(here + Seq::<u8>::empty() =~= here);
                        lemma_next_cell(
                            cols,
                            was,
                            before,
                            before,
                            rw,
                            heap@,
                            nrows as int,
                            r as int,
                            i as int,
                        );
                    }
                },
                Some(kind) => {
                    let total: usize = main.len();
                    assert(total == nrows * row_width);
                    let at: usize = r * row_width + col.byte_offset;
                    let field: Vec<u8> = copy_of(main, at, col.byte_width);
                    let (count, off): (i64, i64) = read_descriptor(kind, &field);
                    match pointed_bytes(col.letter, count, off, heap) {
                        Err(cell) => {
                            proof {
                                lemma_live_row_error(
                                    cols,
                                    was,
                                    rw,
                                    heap@,
                                    r as int,
                                    (i + 1) as nat,
                                    n as nat,
                                );
                                lemma_live_error(
                                    cols,
                                    was,
                                    rw,
                                    heap@,
                                    (r + 1) as nat,
                                    nrows as nat,
                                );
                            }
                            return Err(EditError::Cell { column: i, row: r, cell });
                        },
                        Ok(b) => {
                            let new_off: usize = out.len();
                            let d: Vec<u8> = write_descriptor(kind, count as u64, new_off as u64);
                            write_at(main, at, &d);
                            let mut bytes: Vec<u8> = b;
                            let ghost piece = bytes@;
                            out.append(&mut bytes);
                            proof {
                                assert(head + (here + piece) =~= (head + here) + piece);
                                assert(d@ == packed_field(
                                    cols,
                                    was,
                                    rw,
                                    heap@,
                                    r as int,
                                    i as int,
                                ));
                                lemma_next_cell(
                                    cols,
                                    was,
                                    before,
                                    main@,
                                    rw,
                                    heap@,
                                    nrows as int,
                                    r as int,
                                    i as int,
                                );
                            }
                        },
                    }
                },
            }
            i = i + 1;
        }
        proof {
            assert forall|q: int, j: int|
                0 <= q < nrows && 0 <= j < cols.len() implies #[trigger] col_field(
                cols,
                main@,
                rw,
                q,
                j,
            ) == if q < r + 1 || (q == r + 1 && j < 0) {
                packed_field(cols, was, rw, heap@, q, j)
            } else {
                col_field(cols, was, rw, q, j)
            } by {
            }
        }
        r = r + 1;
    }
    Ok(out)
}

proof fn lemma_next_cell(
    cols: Seq<ColumnView>,
    was: Seq<u8>,
    before: Seq<u8>,
    now: Seq<u8>,
    rw: int,
    heap: Seq<u8>,
    n: int,
    r: int,
    i: int,
)
    requires
        columns_fill(cols, rw),
        0 <= r < n,
        0 <= i < cols.len(),
        was.len() == n * rw,
        packed_upto(cols, was, before, rw, heap, n, r, i),
        cols[i].var_kind is None ==> now == before,
        cols[i].var_kind is Some ==> packed_field(cols, was, rw, heap, r, i).len()
            == cols[i].byte_width && now == splice(
            before,
            r * rw + cols[i].byte_offset,
            packed_field(cols, was, rw, heap, r, i),
        ),
    ensures
        packed_upto(cols, was, now, rw, heap, n, r, i + 1),
{
    lemma_columns_fill(cols, rw);
    assert forall|q: int, j: int| 0 <= q < n && 0 <= j < cols.len() implies #[trigger] col_field(
        cols,
        now,
        rw,
        q,
        j,
    ) == if q < r || (q == r && j < i + 1) {
        packed_field(cols, was, rw, heap, q, j)
    } else {
        col_field(cols, was, rw, q, j)
    } by {
        assert(col_field(cols, before, rw, q, j) == if q < r || (q == r && j < i) {
            packed_field(cols, was, rw, heap, q, j)
        } else {
            col_field(cols, was, rw, q, j)
        });
        if cols[i].var_kind is Some {
            if q == r && j < i {
                assert(cols[j].byte_offset + cols[j].byte_width <= cols[i].byte_offset);
            } else if q == r && j > i {
                assert(cols[i].byte_offset + cols[i].byte_width <= cols[j].byte_offset);
            }
            lemma_field_splice(
                before,
                rw,
                n,
                r,
                cols[i].byte_offset as int,
                packed_field(cols, was, rw, heap, r, i),
                q,
                cols[j].byte_offset as int,
                cols[j].byte_width as int,
            );
        }
    }
}

/// Rows and a heap, repacked.
#[derive(Debug)]
pub struct Repacked {
    pub main: Vec<u8>,
    pub heap: Vec<u8>,
}

/// Rebuilds the heap with the cells that descriptors point to, row by row.
/// Where that changes nothing of its size, nothing is done.
pub fn repack_table_heap(
    columns: &[Column],
    main: Vec<u8>,
    heap: &Vec<u8>,
    nrows: usize,
    row_width: usize,
) -> (v: Result<Option<Repacked>, EditError>)
    requires
        columns_ok(views(columns@), row_width as int),
        main@.len() == nrows * row_width,
    ensures
        ({
            let cols = views(columns@);
            let rw = row_width as int;
            let packed = live_rows(cols, main@, rw, heap@, nrows as int);
            match live_error(cols, main@, rw, heap@, nrows as nat) {
                Some(e) => v == Err::<Option<Repacked>, EditError>(e),
                None => match v {
                    Err(_) => false,
                    Ok(None) => packed.len() == heap@.len(),
                    Ok(Some(p)) => packed.len() != heap@.len() && p.heap@ == packed && is_packed(
                        cols,
                        main@,
                        p.main@,
                        rw,
                        heap@,
                        nrows as int,
                    ),
                },
            }
        }),
{
    let mut rows: Vec<u8> = main;
    match pack_cells(columns, &mut rows, heap, nrows, row_width) {
        Err(e) => Err(e),
        Ok(packed) => if packed.len() == heap.len() {
            Ok(None)
        } else {
            Ok(Some(Repacked { main: rows, heap: packed }))
        },
    }
}

// Laws ---------------------------------------------------------------------

proof fn lemma_live_row_at(
    cols: Seq<ColumnView>,
    main: Seq<u8>,
    rw: int,
    heap: Seq<u8>,
    r: int,
    i: int,
    k: int,
)
    requires
        0 <= i < k,
    ensures
        ({
            let row = live_row(cols, main, rw, heap, r, k);
            let from = live_row(cols, main, rw, heap, r, i).len() as int;
            let cell = live_cell(cols, main, rw, heap, r, i)->Ok_0;
            &&& from + cell.len() <= row.len()
            &&& row.subrange(from, from + cell.len()) == cell
        }),
    decreases k,
{
    let row = live_row(cols, main, rw, heap, r, k);
    let from = live_row(cols, main, rw, heap, r, i).len() as int;
    let cell = live_cell(cols, main, rw, heap, r, i)->Ok_0;
    if i < k - 1 {
        lemma_live_row_at(cols, main, rw, heap, r, i, k - 1);
        let t = live_row(cols, main, rw, heap, r, k - 1);
        assert(row.subrange(from, from + cell.len()) =~= t.subrange(from, from + cell.len()));
    } else {
        assert(row.subrange(from, from + cell.len()) =~= cell);
    }
}

/// The bytes of each cell stand in the new heap at its new offset.
proof fn lemma_live_rows_at(
    cols: Seq<ColumnView>,
    main: Seq<u8>,
    rw: int,
    heap: Seq<u8>,
    r: int,
    i: int,
    n: int,
)
    requires
        0 <= r < n,
        0 <= i < cols.len(),
    ensures
        ({
            let all = live_rows(cols, main, rw, heap, n);
            let from = packed_offset(cols, main, rw, heap, r, i) as int;
            let cell = live_cell(cols, main, rw, heap, r, i)->Ok_0;
            &&& from + cell.len() <= all.len()
            &&& all.subrange(from, from + cell.len()) == cell
        }),
    decreases n,
{
    let all = live_rows(cols, main, rw, heap, n);
    let from = packed_offset(cols, main, rw, heap, r, i) as int;
    let cell = live_cell(cols, main, rw, heap, r, i)->Ok_0;
    let t = live_rows(cols, main, rw, heap, n - 1);
    if r < n - 1 {
        lemma_live_rows_at(cols, main, rw, heap, r, i, n - 1);
        assert(all.subrange(from, from + cell.len()) =~= t.subrange(from, from + cell.len()));
    } else {
        lemma_live_row_at(cols, main, rw, heap, r, i, cols.len() as int);
        let row = live_row(cols, main, rw, heap, r, cols.len() as int);
        let at = live_row(cols, main, rw, heap, r, i).len() as int;
        assert(all.subrange(from, from + cell.len()) =~= row.subrange(at, at + cell.len()));
    }
}

/// Whether the new offsets of the first `n` rows are ones that their descriptors
/// can hold.
pub open spec fn offsets_fit(
    cols: Seq<ColumnView>,
    main: Seq<u8>,
    rw: int,
    heap: Seq<u8>,
    n: int,
) -> bool {
    forall|r: int, i: int|
        0 <= r < n && 0 <= i < cols.len() && cols[i].var_kind is Some ==> 2
            * #[trigger] packed_offset(cols, main, rw, heap, r, i) < pow256(
            half_size(cols[i].var_kind->0),
        )
}

/// After repacking every cell in the heap has the count and the bytes that it
/// had, and every other cell is as it was.
pub proof fn law_repack_keeps_cells(
    cols: Seq<ColumnView>,
    main: Seq<u8>,
    now: Seq<u8>,
    rw: int,
    heap: Seq<u8>,
    n: int,
    r: int,
    i: int,
)
    requires
        columns_ok(cols, rw),
        main.len() == n * rw,
        live_error(cols, main, rw, heap, n as nat) is None,
        is_packed(cols, main, now, rw, heap, n),
        offsets_fit(cols, main, rw, heap, n),
        heap.len() <= u64::MAX,
        live_rows(cols, main, rw, heap, n).len() <= u64::MAX,
        0 <= r < n,
        0 <= i < cols.len(),
    ensures
        ({
            let packed = live_rows(cols, main, rw, heap, n);
            &&& cols[i].var_kind is None ==> col_field(cols, now, rw, r, i) == col_field(
                cols,
                main,
                rw,
                r,
                i,
            )
            &&& cols[i].var_kind is Some ==> descriptor_at(cols, now, rw, r, i).0 == descriptor_at(
                cols,
                main,
                rw,
                r,
                i,
            ).0 && descriptor_at(cols, now, rw, r, i).1 == packed_offset(
                cols,
                main,
                rw,
                heap,
                r,
                i,
            )
            &&& live_cell(cols, now, rw, packed, r, i) == live_cell(cols, main, rw, heap, r, i)
        }),
{
    lemma_all_live(cols, main, rw, heap, n as nat, r, i);
    assert(col_field(cols, now, rw, r, i) == packed_field(cols, main, rw, heap, r, i));
    if cols[i].var_kind is Some {
        let kind = cols[i].var_kind->0;
        let (count, off) = descriptor_at(cols, main, rw, r, i);
        let at = packed_offset(cols, main, rw, heap, r, i);
        let packed = live_rows(cols, main, rw, heap, n);
        let len = cell_bytes(cols[i].letter, count as nat);
        lemma_live_rows_at(cols, main, rw, heap, r, i, n);
        lemma_count_fits(cols, main, rw, n, r, i);
        law_descriptor_round_trip(kind, count as nat, at);
        assert(packed.subrange(at as int, (at + len) as int) == live_cell(
            cols,
            main,
            rw,
            heap,
            r,
            i,
        )->Ok_0);
    }
}

/// A count that a descriptor holds is one that it can hold.
proof fn lemma_count_fits(
    cols: Seq<ColumnView>,
    main: Seq<u8>,
    rw: int,
    n: int,
    r: int,
    i: int,
)
    requires
        columns_ok(cols, rw),
        main.len() == n * rw,
        0 <= r < n,
        0 <= i < cols.len(),
        cols[i].var_kind is Some,
    ensures
        2 * descriptor_at(cols, main, rw, r, i).0 < pow256(half_size(cols[i].var_kind->0)),
{
    let kind = cols[i].var_kind->0;
    let w = half_size(kind);
    let d = col_field(cols, main, rw, r, i);
    assert(column_ok(cols[i]));
    lemma_columns_fill(cols, rw);
    lemma_unit_below(r, n, rw);
    let half = d.subrange(0, w as int);
    assert(half.len() == w);
    crate::bytes::lemma_be_value_leading(half);
    let p = pow256((w - 1) as nat) as int;
    assert(pow256(w) == 256 * p);
    if half[0] < 128 {
        let top = half[0] as int;
        assert((top + 1) * p <= 128 * p) by (nonlinear_arith)
            requires
                top < 128,
                p >= 0,
        ;
    }
    crate::bytes::lemma_be_value_bound(half);
    crate::bytes::lemma_pow256();
}

/// Repacking what has been repacked changes nothing: neither the heap nor a
/// descriptor.
pub proof fn law_repack_twice(
    cols: Seq<ColumnView>,
    main: Seq<u8>,
    now: Seq<u8>,
    rw: int,
    heap: Seq<u8>,
    n: int,
)
    requires
        columns_ok(cols, rw),
        main.len() == n * rw,
        live_error(cols, main, rw, heap, n as nat) is None,
        is_packed(cols, main, now, rw, heap, n),
        offsets_fit(cols, main, rw, heap, n),
        heap.len() <= u64::MAX,
        live_rows(cols, main, rw, heap, n).len() <= u64::MAX,
        0 <= n,
    ensures
        ({
            let packed = live_rows(cols, main, rw, heap, n);
            &&& live_error(cols, now, rw, packed, n as nat) is None
            &&& live_rows(cols, now, rw, packed, n) == packed
            &&& is_packed(cols, now, now, rw, packed, n)
        }),
{
    let packed = live_rows(cols, main, rw, heap, n);
    assert forall|r: int, i: int| 0 <= r < n && 0 <= i < cols.len() implies #[trigger] live_cell(
        cols,
        now,
        rw,
        packed,
        r,
        i,
    ) == live_cell(cols, main, rw, heap, r, i) by {
        law_repack_keeps_cells(cols, main, now, rw, heap, n, r, i);
    }
    lemma_same_live(cols, main, now, rw, heap, packed, n, n);
    assert forall|r: int, i: int| 0 <= r < n && 0 <= i < cols.len() implies #[trigger] col_field(
        cols,
        now,
        rw,
        r,
        i,
    ) == packed_field(cols, now, rw, packed, r, i) by {
        law_repack_keeps_cells(cols, main, now, rw, heap, n, r, i);
        lemma_same_live(cols, main, now, rw, heap, packed, n, r);
        lemma_same_row(cols, main, now, rw, heap, packed, r, i);
        assert(col_field(cols, now, rw, r, i) == packed_field(cols, main, rw, heap, r, i));
    }
}

proof fn lemma_same_row(
    cols: Seq<ColumnView>,
    main: Seq<u8>,
    now: Seq<u8>,
    rw: int,
    heap: Seq<u8>,
    packed: Seq<u8>,
    r: int,
    k: int,
)
    requires
        0 <= k <= cols.len(),
        forall|i: int|
            0 <= i < cols.len() ==> #[trigger] live_cell(cols, now, rw, packed, r, i) == live_cell(
                cols,
                main,
                rw,
                heap,
                r,
                i,
            ),
    ensures
        live_row(cols, now, rw, packed, r, k) == live_row(cols, main, rw, heap, r, k),
        live_row_error(cols, now, rw, packed, r, k as nat) == live_row_error(
            cols,
            main,
            rw,
            heap,
            r,
            k as nat,
        ),
    decreases k,
{
    if k > 0 {
        lemma_same_row(cols, main, now, rw, heap, packed, r, k - 1);
        assert(live_cell(cols, now, rw, packed, r, k - 1) == live_cell(
            cols,
            main,
            rw,
            heap,
            r,
            k - 1,
        ));
    }
}

proof fn lemma_same_live(
    cols: Seq<ColumnView>,
    main: Seq<u8>,
    now: Seq<u8>,
    rw: int,
    heap: Seq<u8>,
    packed: Seq<u8>,
    n: int,
    m: int,
)
    requires
        0 <= m <= n,
        forall|r: int, i: int|
            0 <= r < n && 0 <= i < cols.len() ==> #[trigger] live_cell(
                cols,
                now,
                rw,
                packed,
                r,
                i,
            ) == live_cell(cols, main, rw, heap, r, i),
    ensures
        live_rows(cols, now, rw, packed, m) == live_rows(cols, main, rw, heap, m),
        live_error(cols, now, rw, packed, m as nat) == live_error(
            cols,
            main,
            rw,
            heap,
            m as nat,
        ),
    decreases m,
{
    if m > 0 {
        lemma_same_live(cols, main, now, rw, heap, packed, n, m - 1);
        lemma_same_row(cols, main, now, rw, heap, packed, m - 1, cols.len() as int);
    }
}

// Sizes --------------------------------------------------------------------

/// Whether the cell of column `i` in row `r` takes up byte `x` of the heap.
pub open spec fn takes_byte(
    cols: Seq<ColumnView>,
    main: Seq<u8>,
    rw: int,
    r: int,
    i: int,
    x: int,
) -> bool {
    let (n, off) = descriptor_at(cols, main, rw, r, i);
    cols[i].var_kind is Some && off <= x < off + cell_bytes(cols[i].letter, n as nat)
}

/// Whether no byte of the heap is taken up by two cells of the first `n` rows.
pub open spec fn cells_apart(cols: Seq<ColumnView>, main: Seq<u8>, rw: int, n: int) -> bool {
    forall|r: int, i: int, q: int, j: int, x: int|
        0 <= r < n && 0 <= q < n && 0 <= i < cols.len() && 0 <= j < cols.len()
            && #[trigger] takes_byte(cols, main, rw, r, i, x) && #[trigger] takes_byte(
            cols,
            main,
            rw,
            q,
            j,
            x,
        ) ==> r == q && i == j
}

/// The bytes of the heap that a cell takes up.
spec fn cell_set(cols: Seq<ColumnView>, main: Seq<u8>, rw: int, r: int, i: int) -> Set<int> {
    Set::new(|x: int| takes_byte(cols, main, rw, r, i, x))
}

spec fn row_set(cols: Seq<ColumnView>, main: Seq<u8>, rw: int, r: int, k: int) -> Set<int>
    decreases k,
{
    if k <= 0 {
        Set::empty()
    } else {
        row_set(cols, main, rw, r, k - 1) + cell_set(cols, main, rw, r, k - 1)
    }
}

spec fn rows_set(cols: Seq<ColumnView>, main: Seq<u8>, rw: int, n: int) -> Set<int>
    decreases n,
{
    if n <= 0 {
        Set::empty()
    } else {
        rows_set(cols, main, rw, n - 1) + row_set(cols, main, rw, n - 1, cols.len() as int)
    }
}

proof fn lemma_cell_set(
    cols: Seq<ColumnView>,
    main: Seq<u8>,
    rw: int,
    heap: Seq<u8>,
    r: int,
    i: int,
)
    requires
        live_cell(cols, main, rw, heap, r, i) is Ok,
    ensures
        cell_set(cols, main, rw, r, i).finite(),
        cell_set(cols, main, rw, r, i).len() == live_cell(cols, main, rw, heap, r, i)->Ok_0.len(),
        forall|x: int|
            #[trigger] cell_set(cols, main, rw, r, i).contains(x) ==> 0 <= x < heap.len(),
{
    let s = cell_set(cols, main, rw, r, i);
    if cols[i].var_kind is Some {
        let (n, off) = descriptor_at(cols, main, rw, r, i);
        let end = off + cell_bytes(cols[i].letter, n as nat);
        vstd::set_lib::lemma_int_range(off, end);
        assert(s =~= vstd::set_lib::set_int_range(off, end));
    } else {
        assert(s =~= Set::empty());
    }
}

proof fn lemma_row_set(
    cols: Seq<ColumnView>,
    main: Seq<u8>,
    rw: int,
    heap: Seq<u8>,
    n: int,
    r: int,
    k: int,
)
    requires
        live_error(cols, main, rw, heap, n as nat) is None,
        cells_apart(cols, main, rw, n),
        0 <= r < n,
        0 <= k <= cols.len(),
    ensures
        ({
            let s = row_set(cols, main, rw, r, k);
            &&& s.finite()
            &&& s.len() == live_row(cols, main, rw, heap, r, k).len()
            &&& forall|x: int| #[trigger] s.contains(x) ==> 0 <= x < heap.len() && exists|i: int|
                0 <= i < k && takes_byte(cols, main, rw, r, i, x)
        }),
    decreases k,
{
    if k > 0 {
        let i = k - 1;
        let a = row_set(cols, main, rw, r, i);
        let b = cell_set(cols, main, rw, r, i);
        lemma_row_set(cols, main, rw, heap, n, r, i);
        lemma_all_live(cols, main, rw, heap, n as nat, r, i);
        lemma_cell_set(cols, main, rw, heap, r, i);
        assert(a.disjoint(b)) by {
            assert forall|x: int| !(a.contains(x) && b.contains(x)) by {
                if a.contains(x) && b.contains(x) {
                    let j = choose|j: int| 0 <= j < i && takes_byte(cols, main, rw, r, j, x);
                    assert(takes_byte(cols, main, rw, r, i, x));
                }
            }
        }
        vstd::set_lib::lemma_set_disjoint_lens(a, b);
        let s = row_set(cols, main, rw, r, k);
        assert forall|x: int| #[trigger] s.contains(x) implies 0 <= x < heap.len() && exists|i: int|
            0 <= i < k && takes_byte(cols, main, rw, r, i, x) by {
            if a.contains(x) {
                let j = choose|j: int| 0 <= j < i && takes_byte(cols, main, rw, r, j, x);
                assert(takes_byte(cols, main, rw, r, j, x));
            } else {
                assert(b.contains(x));
                assert(takes_byte(cols, main, rw, r, i, x));
            }
        }
    }
}

proof fn lemma_rows_set(
    cols: Seq<ColumnView>,
    main: Seq<u8>,
    rw: int,
    heap: Seq<u8>,
    n: int,
    m: int,
)
    requires
        live_error(cols, main, rw, heap, n as nat) is None,
        cells_apart(cols, main, rw, n),
        0 <= m <= n,
    ensures
        ({
            let s = rows_set(cols, main, rw, m);
            &&& s.finite()
            &&& s.len() == live_rows(cols, main, rw, heap, m).len()
            &&& forall|x: int| #[trigger] s.contains(x) ==> 0 <= x < heap.len() && exists|
                r: int,
                i: int,
            |
                0 <= r < m && 0 <= i < cols.len() && takes_byte(cols, main, rw, r, i, x)
        }),
    decreases m,
{
    if m > 0 {
        let r = m - 1;
        let k = cols.len() as int;
        let a = rows_set(cols, main, rw, r);
        let b = row_set(cols, main, rw, r, k);
        lemma_rows_set(cols, main, rw, heap, n, r);
        lemma_row_set(cols, main, rw, heap, n, r, k);
        assert(a.disjoint(b)) by {
            assert forall|x: int| !(a.contains(x) && b.contains(x)) by {
                if a.contains(x) && b.contains(x) {
                    let (q, j) = choose|q: int, j: int|
                        0 <= q < r && 0 <= j < cols.len() && takes_byte(
                            cols,
                            main,
                            rw,
                            q,
                            j,
                            x,
                        );
                    let i = choose|i: int| 0 <= i < k && takes_byte(cols, main, rw, r, i, x);
                    assert(takes_byte(cols, main, rw, q, j, x) && takes_byte(
                        cols,
                        main,
                        rw,
                        r,
                        i,
                        x,
                    ));
                }
            }
        }
        vstd::set_lib::lemma_set_disjoint_lens(a, b);
        let s = rows_set(cols, main, rw, m);
        assert forall|x: int| #[trigger] s.contains(x) implies 0 <= x < heap.len() && exists|
            r: int,
            i: int,
        |
            0 <= r < m && 0 <= i < cols.len() && takes_byte(cols, main, rw, r, i, x) by {
            if a.contains(x) {
                let (q, j) = choose|q: int, j: int|
                    0 <= q < r && 0 <= j < cols.len() && takes_byte(cols, main, rw, q, j, x);
                assert(takes_byte(cols, main, rw, q, j, x));
            } else {
                assert(b.contains(x));
                let i = choose|i: int| 0 <= i < k && takes_byte(cols, main, rw, r, i, x);
                assert(takes_byte(cols, main, rw, r, i, x));
            }
        }
    }
}

/// Where no two cells share a byte, the new heap is no larger than the old one.
pub proof fn law_repack_does_not_grow(
    cols: Seq<ColumnView>,
    main: Seq<u8>,
    rw: int,
    heap: Seq<u8>,
    n: int,
)
    requires
        live_error(cols, main, rw, heap, n as nat) is None,
        cells_apart(cols, main, rw, n),
        0 <= n,
    ensures
        live_rows(cols, main, rw, heap, n).len() <= heap.len(),
{
    lemma_rows_set(cols, main, rw, heap, n, n);
    let s = rows_set(cols, main, rw, n);
    let all = vstd::set_lib::set_int_range(0, heap.len() as int);
    vstd::set_lib::lemma_int_range(0, heap.len() as int);
    assert(s.subset_of(all));
    vstd::set_lib::lemma_len_subset(s, all);
}

/// Where no two cells share a byte and the old heap is below half of the range
/// of every descriptor, the new offsets are ones that the descriptors can hold.
pub proof fn law_small_heap_fits(
    cols: Seq<ColumnView>,
    main: Seq<u8>,
    rw: int,
    heap: Seq<u8>,
    n: int,
)
    requires
        live_error(cols, main, rw, heap, n as nat) is None,
        cells_apart(cols, main, rw, n),
        0 <= n,
        forall|i: int|
            0 <= i < cols.len() && (#[trigger] cols[i]).var_kind is Some ==> 2 * heap.len()
                < pow256(half_size(cols[i].var_kind->0)),
    ensures
        offsets_fit(cols, main, rw, heap, n),
{
    law_repack_does_not_grow(cols, main, rw, heap, n);
    assert forall|r: int, i: int|
        0 <= r < n && 0 <= i < cols.len() && cols[i].var_kind is Some implies 2
        * #[trigger] packed_offset(cols, main, rw, heap, r, i) < pow256(
        half_size(cols[i].var_kind->0),
    ) by {
        lemma_live_rows_at(cols, main, rw, heap, r, i, n);
    }
}

} // verus!
