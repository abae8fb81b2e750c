//! Where the rows and the heap of a table stand in the file, and how the file
//! makes room for them.

use vstd::prelude::*;

use crate::bytes::{splice, zeros};
use crate::error::{EditError, WriteError};

verus! {

// Blocks -------------------------------------------------------------------

/// A file is made of blocks of this many bytes.
pub const BLOCK_BYTES: u64 = 2880;

/// `n` bytes, filled up to whole blocks.
pub open spec fn padded(n: int) -> int {
    (n + 2879) / 2880 * 2880
}

/// The filling is short of a block, and what comes out is whole blocks.
pub proof fn law_padded(n: int)
    requires
        0 <= n,
    ensures
        n <= padded(n) < n + 2880,
        padded(n) % 2880 == 0,
        padded(padded(n)) == padded(n),
{
}

/// More bytes take no fewer blocks.
pub proof fn lemma_padded_order(a: int, b: int)
    requires
        0 <= a <= b,
    ensures
        padded(a) <= padded(b),
{
}

/// Fills `n` bytes up to whole blocks; nothing where 64 bits do not hold that.
pub fn round_up_to_block(n: u64) -> (r: Option<u64>)
    ensures
        match r {
            Some(v) => v == padded(n as int),
            None => padded(n as int) > u64::MAX,
        },
{
    let over: u64 = n % BLOCK_BYTES;
    if over == 0 {
        Some(n)
    } else {
        n.checked_add(BLOCK_BYTES - over)
    }
}

// The file -----------------------------------------------------------------

/// What is done to the length of the file.
#[derive(Clone, Copy, PartialEq, Eq, Structural, Debug)]
pub enum Extent {
    /// Nothing.
    Keep,
    /// What stands from `at` on moves up by `by` bytes, and zeros fill the gap.
    OpenGap { at: u64, by: u64 },
    /// What stands from `at` on moves down by `by` bytes.
    CloseGap { at: u64, by: u64 },
    /// The file is cut, or filled up with zeros, to a length.
    SetLength { length: u64 },
}

/// `file`, cut or filled up with zeros to `n` bytes.
pub open spec fn set_length(file: Seq<u8>, n: int) -> Seq<u8> {
    if n <= file.len() {
        file.take(n)
    } else {
        file + zeros((n - file.len()) as nat)
    }
}

/// What becomes of the file.
pub open spec fn resized(file: Seq<u8>, e: Extent) -> Seq<u8> {
    match e {
        Extent::Keep => file,
        Extent::OpenGap { at, by } => file.take(at as int) + zeros(by as nat) + file.skip(at as int),
        Extent::CloseGap { at, by } => file.take(at - by) + file.skip(at as int),
        Extent::SetLength { length } => set_length(file, length as int),
    }
}

/// What is done to a file of `len` bytes where the data at `offset` go from
/// `old` bytes to `new` bytes: what stands behind them is moved, and where
/// nothing does, the file ends with them.
pub open spec fn extent_for(offset: int, old: int, new: int, len: int) -> Extent {
    let before = offset + padded(old);
    let after = offset + padded(new);
    if before == after {
        Extent::Keep
    } else if len <= before {
        Extent::SetLength { length: after as u64 }
    } else if after > before {
        Extent::OpenGap { at: before as u64, by: (after - before) as u64 }
    } else {
        Extent::CloseGap { at: before as u64, by: (before - after) as u64 }
    }
}

/// The same, but for data that shrink: their room is kept.
pub open spec fn growth_for(offset: int, old: int, new: int, len: int) -> Extent {
    if padded(new) > padded(old) {
        extent_for(offset, old, new, len)
    } else {
        Extent::Keep
    }
}

/// Says what is done to the file where the data change their size; nothing
/// where an end of them is beyond 64 bits.
pub fn grow_or_shrink_data_extent(offset: u64, old: u64, new: u64, file_len: u64) -> (r: Option<
    Extent,
>)
    ensures
        match r {
            Some(e) => e == extent_for(offset as int, old as int, new as int, file_len as int)
                && offset + padded(old as int) <= u64::MAX && offset + padded(new as int)
                <= u64::MAX,
            None => offset + padded(old as int) > u64::MAX || offset + padded(new as int)
                > u64::MAX,
        },
{
    let before: u64 = match data_end(offset, old) {
        Some(v) => v,
        None => {
            return None;
        },
    };
    let after: u64 = match data_end(offset, new) {
        Some(v) => v,
        None => {
            return None;
        },
    };
    if before == after {
        Some(Extent::Keep)
    } else if file_len <= before {
        Some(Extent::SetLength { length: after })
    } else if after > before {
        Some(Extent::OpenGap { at: before, by: after - before })
    } else {
        Some(Extent::CloseGap { at: before, by: before - after })
    }
}

/// The end of `n` bytes of data at `offset`, in whole blocks.
fn data_end(offset: u64, n: u64) -> (r: Option<u64>)
    ensures
        match r {
            Some(v) => v == offset + padded(n as int),
            None => offset + padded(n as int) > u64::MAX,
        },
{
    match round_up_to_block(n) {
        Some(p) => offset.checked_add(p),
        None => None,
    }
}

/// Says what is done to the file where the data may grow.
pub fn grow_data_extent(offset: u64, old: u64, new: u64, file_len: u64) -> (r: Option<Extent>)
    ensures
        match r {
            Some(e) => e == growth_for(offset as int, old as int, new as int, file_len as int)
                && offset + padded(old as int) <= u64::MAX && offset + padded(new as int)
                <= u64::MAX,
            None => offset + padded(old as int) > u64::MAX || offset + padded(new as int)
                > u64::MAX,
        },
{
    match grow_or_shrink_data_extent(offset, old, new, file_len) {
        None => None,
        Some(Extent::CloseGap { at, by }) => Some(Extent::Keep),
        Some(Extent::SetLength { length }) => {
            match data_end(offset, old) {
                Some(before) => if length > before {
                    Some(Extent::SetLength { length })
                } else {
                    Some(Extent::Keep)
                },
                None => None,
            }
        },
        Some(e) => Some(e),
    }
}

/// Where the data change their size, nothing but them does: what stands before
/// them stays, they keep what they have room for, and what stands behind them
/// stands behind them.
pub proof fn law_extent_keeps_the_rest(file: Seq<u8>, offset: int, old: int, new: int)
    requires
        0 <= offset,
        0 <= old,
        0 <= new,
        offset + padded(old) <= file.len() <= u64::MAX,
        offset + padded(new) <= u64::MAX,
    ensures
        ({
            let after = resized(file, extent_for(offset, old, new, file.len() as int));
            let kept = if old <= new {
                offset + padded(old)
            } else {
                offset + padded(new)
            };
            &&& after.len() == file.len() - padded(old) + padded(new)
            &&& after.take(kept) == file.take(kept)
            &&& after.skip(offset + padded(new)) == file.skip(offset + padded(old))
        }),
{
    let e = extent_for(offset, old, new, file.len() as int);
    let after = resized(file, e);
    if old <= new {
        lemma_padded_order(old, new);
    } else {
        lemma_padded_order(new, old);
    }
    let kept = if old <= new {
        offset + padded(old)
    } else {
        offset + padded(new)
    };
    assert(after.take(kept) =~= file.take(kept));
    assert(after.skip(offset + padded(new)) =~= file.skip(offset + padded(old)));
}

// Writing the whole table --------------------------------------------------

/// Where the rows and a new heap go.
#[derive(Clone, Copy, PartialEq, Eq, Structural, Debug)]
pub struct OverwriteLayout {
    pub extent: Extent,
    pub rows_at: u64,
    pub heap_at: u64,
}

/// The layout for `main` bytes of rows and `heap` bytes of heap in place of the
/// `pcount` bytes that there are.
pub open spec fn overwrite_layout(
    offset: int,
    main: int,
    pcount: int,
    heap: int,
    len: int,
) -> OverwriteLayout {
    OverwriteLayout {
        extent: growth_for(offset, main + pcount, main + heap, len),
        rows_at: offset as u64,
        heap_at: (offset + main) as u64,
    }
}

/// Lays out the rows of a whole table and its heap; nothing where the file
/// would be longer than 64 bits count.
pub fn plan_overwrite(
    offset: u64,
    nrows: usize,
    row_width: usize,
    pcount: u64,
    heap: u64,
    file_len: u64,
) -> (r: Result<OverwriteLayout, WriteError>)
    ensures
        match r {
            Ok(l) => l == overwrite_layout(
                offset as int,
                nrows * row_width,
                pcount as int,
                heap as int,
                file_len as int,
            ) && fits(offset as int, nrows * row_width + pcount) && fits(
                offset as int,
                nrows * row_width + heap,
            ),
            Err(e) => e == WriteError::TooLarge && !(fits(
                offset as int,
                nrows * row_width + pcount,
            ) && fits(offset as int, nrows * row_width + heap)),
        },
{
    proof {
        lemma_product(nrows as int, row_width as int);
    }
    let main: u64 = match (nrows as u64).checked_mul(row_width as u64) {
        Some(m) => m,
        None => {
            return Err(WriteError::TooLarge);
        },
    };
    let (old, new): (u64, u64) = match (main.checked_add(pcount), main.checked_add(heap)) {
        (Some(a), Some(b)) => (a, b),
        _ => {
            return Err(WriteError::TooLarge);
        },
    };
    match grow_data_extent(offset, old, new, file_len) {
        Some(extent) => Ok(
            OverwriteLayout { extent, rows_at: offset, heap_at: offset + main },
        ),
        None => Err(WriteError::TooLarge),
    }
}

/// Whether data of `n` bytes at `offset` end within 64 bits.
pub open spec fn fits(offset: int, n: int) -> bool {
    offset + padded(n) <= u64::MAX
}

proof fn lemma_product(a: int, b: int)
    requires
        0 <= a,
        0 <= b,
    ensures
        0 <= a * b,
{
    assert(0 <= a * b) by (nonlinear_arith)
        requires
            0 <= a,
            0 <= b,
    ;
}

/// The file after the rows and the heap have been written.
pub open spec fn overwritten(
    file: Seq<u8>,
    l: OverwriteLayout,
    rows: Seq<u8>,
    heap: Seq<u8>,
) -> Seq<u8> {
    splice(splice(resized(file, l.extent), l.rows_at as int, rows), l.heap_at as int, heap)
}

/// Writing the whole table changes nothing outside its data, which are then the
/// rows and the heap.
pub proof fn law_overwrite(
    file: Seq<u8>,
    offset: int,
    pcount: int,
    rows: Seq<u8>,
    heap: Seq<u8>,
)
    requires
        0 <= offset,
        0 <= pcount,
        offset + padded(rows.len() + pcount) <= file.len() <= u64::MAX,
        fits(offset, (rows.len() + heap.len()) as int),
    ensures
        ({
            let main = rows.len() as int;
            let n = heap.len() as int;
            let l = overwrite_layout(offset, main, pcount, n, file.len() as int);
            let after = overwritten(file, l, rows, heap);
            let old_end = offset + padded(main + pcount);
            let new_end = if padded(main + n) > padded(main + pcount) {
                offset + padded(main + n)
            } else {
                old_end
            };
            &&& after.take(offset) == file.take(offset)
            &&& after.subrange(offset, offset + main + n) == rows + heap
            &&& after.skip(new_end) == file.skip(old_end)
        }),
{
    let main = rows.len() as int;
    let n = heap.len() as int;
    let l = overwrite_layout(offset, main, pcount, n, file.len() as int);
    let sized = resized(file, l.extent);
    let after = overwritten(file, l, rows, heap);
    law_padded(main + n);
    law_padded(main + pcount);
    let old_end = offset + padded(main + pcount);
    if padded(main + n) > padded(main + pcount) {
        if main + n < main + pcount {
            lemma_padded_order(main + n, main + pcount);
        }
        law_extent_keeps_the_rest(file, offset, main + pcount, main + n);
        let new_end = offset + padded(main + n);
        assert(sized.take(old_end) == file.take(old_end));
        assert forall|i: int| 0 <= i < offset implies after[i] == file[i] by {
            assert(sized.take(old_end)[i] == file.take(old_end)[i]);
        }
        assert(after.take(offset) =~= file.take(offset));
        assert(after.skip(new_end) =~= sized.skip(new_end));
    } else {
        assert(sized == file);
        assert(after.take(offset) =~= file.take(offset));
        assert(after.skip(old_end) =~= file.skip(old_end));
    }
    assert(after.subrange(offset, offset + main + n) =~= rows + heap);
}

// Adding rows --------------------------------------------------------------

/// Where added rows go, whither the heap moves, and where what is added to it
/// goes.
#[derive(Clone, Copy, PartialEq, Eq, Structural, Debug)]
pub struct AppendLayout {
    pub extent: Extent,
    /// Where the added rows go, which is where the heap stands.
    pub rows_at: u64,
    /// Where the heap moves.
    pub heap_to: u64,
    /// Where what is added to the heap goes.
    pub heap_at: u64,
}

/// The layout for `added` bytes of rows behind `main` bytes of them, where the
/// heap goes from `pcount` bytes to `heap` bytes.
pub open spec fn append_layout(
    offset: int,
    main: int,
    added: int,
    pcount: int,
    heap: int,
    len: int,
) -> AppendLayout {
    AppendLayout {
        extent: growth_for(offset, main + pcount, main + added + heap, len),
        rows_at: (offset + main) as u64,
        heap_to: (offset + main + added) as u64,
        heap_at: (offset + main + added + pcount) as u64,
    }
}

/// Lays out added rows; an error where the file would be longer than 64 bits
/// count. A table without a heap has `pcount` and `heap` zero.
pub fn plan_append(
    offset: u64,
    nrows: usize,
    added: usize,
    row_width: usize,
    pcount: u64,
    heap: u64,
    file_len: u64,
) -> (r: Result<AppendLayout, WriteError>)
    requires
        pcount <= heap,
    ensures
        match r {
            Ok(l) => l == append_layout(
                offset as int,
                nrows * row_width,
                added * row_width,
                pcount as int,
                heap as int,
                file_len as int,
            ) && fits(offset as int, nrows * row_width + added * row_width + heap),
            Err(e) => e == WriteError::TooLarge && !fits(
                offset as int,
                nrows * row_width + added * row_width + heap,
            ),
        },
{
    proof {
        lemma_product(nrows as int, row_width as int);
        lemma_product(added as int, row_width as int);
        law_padded(nrows * row_width + added * row_width + heap);
        lemma_padded_order(
            nrows * row_width + pcount,
            nrows * row_width + added * row_width + heap,
        );
    }
    let main: u64 = match (nrows as u64).checked_mul(row_width as u64) {
        Some(m) => m,
        None => {
            return Err(WriteError::TooLarge);
        },
    };
    let more: u64 = match (added as u64).checked_mul(row_width as u64) {
        Some(m) => m,
        None => {
            return Err(WriteError::TooLarge);
        },
    };
    let rows: u64 = match main.checked_add(more) {
        Some(m) => m,
        None => {
            return Err(WriteError::TooLarge);
        },
    };
    let new: u64 = match rows.checked_add(heap) {
        Some(m) => m,
        None => {
            return Err(WriteError::TooLarge);
        },
    };
    match grow_data_extent(offset, main + pcount, new, file_len) {
        Some(extent) => Ok(
            AppendLayout {
                extent,
                rows_at: offset + main,
                heap_to: offset + rows,
                heap_at: offset + rows + pcount,
            },
        ),
        None => Err(WriteError::TooLarge),
    }
}

/// The file after rows have been added: they and what is added to the heap are
/// written, and then the heap, which was read before, is written anew.
pub open spec fn appended(
    file: Seq<u8>,
    l: AppendLayout,
    pcount: int,
    rows: Seq<u8>,
    heap: Seq<u8>,
) -> Seq<u8> {
    let kept = file.subrange(l.rows_at as int, l.rows_at + pcount);
    splice(
        splice(splice(resized(file, l.extent), l.rows_at as int, rows), l.heap_at as int, heap),
        l.heap_to as int,
        kept,
    )
}

/// Adding rows changes nothing outside the data, and there keeps the rows and
/// the heap, with the new rows behind the rows and the new cells behind the
/// heap.
pub proof fn law_append_keeps_rows_and_heap(
    file: Seq<u8>,
    offset: int,
    main: int,
    pcount: int,
    rows: Seq<u8>,
    heap: Seq<u8>,
)
    requires
        0 <= offset,
        0 <= main,
        0 <= pcount,
        offset + padded(main + pcount) <= file.len() <= u64::MAX,
        fits(offset, main + rows.len() + pcount + heap.len()),
    ensures
        ({
            let added = rows.len() as int;
            let total = pcount + heap.len() as int;
            let l = append_layout(offset, main, added, pcount, total, file.len() as int);
            let after = appended(file, l, pcount, rows, heap);
            let old_end = offset + padded(main + pcount);
            let new_end = offset + padded(main + added + total);
            &&& after.take(offset + main) == file.take(offset + main)
            &&& after.subrange(offset + main, offset + main + added + total) == rows
                + file.subrange(offset + main, offset + main + pcount) + heap
            &&& after.skip(new_end) == file.skip(old_end)
        }),
{
    let added = rows.len() as int;
    let total = pcount + heap.len() as int;
    let l = append_layout(offset, main, added, pcount, total, file.len() as int);
    let sized = resized(file, l.extent);
    let after = appended(file, l, pcount, rows, heap);
    let old_end = offset + padded(main + pcount);
    let new_end = offset + padded(main + added + total);
    law_padded(main + added + total);
    law_padded(main + pcount);
    lemma_padded_order(main + pcount, main + added + total);
    assert(offset + main + added + pcount <= u64::MAX);
    law_extent_keeps_the_rest(file, offset, main + pcount, main + added + total);
    assert(sized == resized(
        file,
        extent_for(offset, main + pcount, main + added + total, file.len() as int),
    ));
    assert forall|i: int| 0 <= i < offset + main implies after[i] == file[i] by {
        assert(sized.take(old_end)[i] == file.take(old_end)[i]);
    }
    assert(after.take(offset + main) =~= file.take(offset + main));
    assert(after.subrange(offset + main, offset + main + added + total) =~= rows + file.subrange(
        offset + main,
        offset + main + pcount,
    ) + heap);
    assert(after.skip(new_end) =~= sized.skip(new_end));
}

// Adding to the heap -------------------------------------------------------

/// Where what is added to the heap goes.
#[derive(Clone, Copy, PartialEq, Eq, Structural, Debug)]
pub struct HeapLayout {
    pub extent: Extent,
    pub heap_at: u64,
}

/// The layout for a heap that goes from `pcount` bytes to `heap` bytes behind
/// `main` bytes of rows.
pub open spec fn heap_layout(
    offset: int,
    main: int,
    pcount: int,
    heap: int,
    len: int,
) -> HeapLayout {
    HeapLayout {
        extent: growth_for(offset, main + pcount, main + heap, len),
        heap_at: (offset + main + pcount) as u64,
    }
}

/// Lays out what is added to the heap; an error where the file would be longer
/// than 64 bits count.
pub fn plan_heap_growth(
    offset: u64,
    nrows: usize,
    row_width: usize,
    pcount: u64,
    heap: u64,
    file_len: u64,
) -> (r: Result<HeapLayout, WriteError>)
    requires
        pcount <= heap,
    ensures
        match r {
            Ok(l) => l == heap_layout(
                offset as int,
                nrows * row_width,
                pcount as int,
                heap as int,
                file_len as int,
            ) && fits(offset as int, nrows * row_width + heap),
            Err(e) => e == WriteError::TooLarge && !fits(
                offset as int,
                nrows * row_width + heap,
            ),
        },
{
    match plan_append(offset, nrows, 0, row_width, pcount, heap, file_len) {
        Ok(l) => {
            proof {
                assert(0 * row_width == 0) by (nonlinear_arith);
            }
            Ok(HeapLayout { extent: l.extent, heap_at: l.heap_at })
        },
        Err(e) => {
            proof {
                assert(0 * row_width == 0) by (nonlinear_arith);
            }
            Err(e)
        },
    }
}

/// The file after something has been added to the heap.
pub open spec fn heap_added(file: Seq<u8>, l: HeapLayout, heap: Seq<u8>) -> Seq<u8> {
    splice(resized(file, l.extent), l.heap_at as int, heap)
}

/// Adding to the heap changes nothing outside the data, and there keeps the
/// rows and the heap, with what is added behind the heap.
pub proof fn law_heap_growth_keeps_rows_and_heap(
    file: Seq<u8>,
    offset: int,
    main: int,
    pcount: int,
    heap: Seq<u8>,
)
    requires
        0 <= offset,
        0 <= main,
        0 <= pcount,
        offset + padded(main + pcount) <= file.len() <= u64::MAX,
        fits(offset, main + pcount + heap.len()),
    ensures
        ({
            let total = pcount + heap.len() as int;
            let l = heap_layout(offset, main, pcount, total, file.len() as int);
            let after = heap_added(file, l, heap);
            let old_end = offset + padded(main + pcount);
            let new_end = offset + padded(main + total);
            &&& after.len() == file.len() + new_end - old_end
            &&& after.take(offset + main + pcount) == file.take(offset + main + pcount)
            &&& after.subrange(offset + main + pcount, offset + main + total) == heap
            &&& after.skip(new_end) == file.skip(old_end)
        }),
{
    let total = pcount + heap.len() as int;
    let l = heap_layout(offset, main, pcount, total, file.len() as int);
    let sized = resized(file, l.extent);
    let after = heap_added(file, l, heap);
    let old_end = offset + padded(main + pcount);
    let new_end = offset + padded(main + total);
    law_padded(main + total);
    law_padded(main + pcount);
    lemma_padded_order(main + pcount, main + total);
    law_extent_keeps_the_rest(file, offset, main + pcount, main + total);
    assert(sized == resized(
        file,
        extent_for(offset, main + pcount, main + total, file.len() as int),
    ));
    assert forall|i: int| 0 <= i < offset + main + pcount implies after[i] == file[i] by {
        assert(sized.take(old_end)[i] == file.take(old_end)[i]);
    }
    assert(after.take(offset + main + pcount) =~= file.take(offset + main + pcount));
    assert(after.subrange(offset + main + pcount, offset + main + total) =~= heap);
    assert(after.skip(new_end) =~= sized.skip(new_end));
}

// Another heap -------------------------------------------------------------

/// Where rows and another heap go: what is done to the file before they are
/// written, and what is done to it after.
#[derive(Clone, Copy, PartialEq, Eq, Structural, Debug)]
pub struct RepackLayout {
    pub before: Extent,
    pub rows_at: u64,
    pub heap_at: u64,
    pub after: Extent,
}

/// The layout for a heap of `heap` bytes in place of one of `pcount` bytes,
/// behind `main` bytes of rows: room is made before, and given up after.
pub open spec fn repack_layout(
    offset: int,
    main: int,
    pcount: int,
    heap: int,
    len: int,
) -> RepackLayout {
    let e = extent_for(offset, main + pcount, main + heap, len);
    RepackLayout {
        before: if heap > pcount {
            e
        } else {
            Extent::Keep
        },
        rows_at: offset as u64,
        heap_at: (offset + main) as u64,
        after: if heap > pcount {
            Extent::Keep
        } else {
            e
        },
    }
}

/// Lays out another heap; an error where the file would be longer than 64 bits
/// count.
pub fn plan_repack(
    offset: u64,
    nrows: usize,
    row_width: usize,
    pcount: u64,
    heap: u64,
    file_len: u64,
) -> (r: Result<RepackLayout, EditError>)
    ensures
        match r {
            Ok(l) => l == repack_layout(
                offset as int,
                nrows * row_width,
                pcount as int,
                heap as int,
                file_len as int,
            ) && fits(offset as int, nrows * row_width + pcount) && fits(
                offset as int,
                nrows * row_width + heap,
            ),
            Err(e) => e == EditError::TooLarge && !(fits(
                offset as int,
                nrows * row_width + pcount,
            ) && fits(offset as int, nrows * row_width + heap)),
        },
{
    proof {
        lemma_product(nrows as int, row_width as int);
    }
    let main: u64 = match (nrows as u64).checked_mul(row_width as u64) {
        Some(m) => m,
        None => {
            return Err(EditError::TooLarge);
        },
    };
    let (old, new): (u64, u64) = match (main.checked_add(pcount), main.checked_add(heap)) {
        (Some(a), Some(b)) => (a, b),
        _ => {
            return Err(EditError::TooLarge);
        },
    };
    match grow_or_shrink_data_extent(offset, old, new, file_len) {
        None => Err(EditError::TooLarge),
        Some(e) => if heap > pcount {
            Ok(
                RepackLayout {
                    before: e,
                    rows_at: offset,
                    heap_at: offset + main,
                    after: Extent::Keep,
                },
            )
        } else {
            Ok(
                RepackLayout {
                    before: Extent::Keep,
                    rows_at: offset,
                    heap_at: offset + main,
                    after: e,
                },
            )
        },
    }
}

/// The file after rows and another heap have been written.
pub open spec fn heap_replaced(
    file: Seq<u8>,
    l: RepackLayout,
    rows: Seq<u8>,
    heap: Seq<u8>,
) -> Seq<u8> {
    resized(
        splice(splice(resized(file, l.before), l.rows_at as int, rows), l.heap_at as int, heap),
        l.after,
    )
}

/// Another heap changes nothing outside the data, which are then the rows and
/// the heap.
pub proof fn law_heap_replaced(
    file: Seq<u8>,
    offset: int,
    pcount: int,
    rows: Seq<u8>,
    heap: Seq<u8>,
)
    requires
        0 <= offset,
        0 <= pcount,
        offset + padded(rows.len() + pcount) <= file.len() <= u64::MAX,
        fits(offset, (rows.len() + heap.len()) as int),
    ensures
        ({
            let main = rows.len() as int;
            let n = heap.len() as int;
            let l = repack_layout(offset, main, pcount, n, file.len() as int);
            let after = heap_replaced(file, l, rows, heap);
            &&& after.take(offset) == file.take(offset)
            &&& after.subrange(offset, offset + main + n) == rows + heap
            &&& after.skip(offset + padded(main + n)) == file.skip(
                offset + padded(main + pcount),
            )
        }),
{
    let main = rows.len() as int;
    let n = heap.len() as int;
    let l = repack_layout(offset, main, pcount, n, file.len() as int);
    let after = heap_replaced(file, l, rows, heap);
    let old_end = offset + padded(main + pcount);
    let new_end = offset + padded(main + n);
    law_padded(main + n);
    law_padded(main + pcount);
    if n > pcount {
        lemma_padded_order(main + pcount, main + n);
        law_extent_keeps_the_rest(file, offset, main + pcount, main + n);
        let sized = resized(
            file,
            extent_for(offset, main + pcount, main + n, file.len() as int),
        );
        assert forall|i: int| 0 <= i < offset implies after[i] == file[i] by {
            assert(sized.take(old_end)[i] == file.take(old_end)[i]);
        }
        assert(after.skip(new_end) =~= sized.skip(new_end));
    } else {
        lemma_padded_order(main + n, main + pcount);
        let written = splice(splice(file, offset, rows), offset + main, heap);
        law_extent_keeps_the_rest(written, offset, main + pcount, main + n);
        let kept = if main + pcount <= main + n {
            old_end
        } else {
            new_end
        };
        assert(kept == new_end);
        assert forall|i: int| 0 <= i < new_end implies after[i] == written[i] by {
            assert(after.take(new_end)[i] == written.take(new_end)[i]);
        }
        assert(written.skip(old_end) =~= file.skip(old_end));
    }
    assert(after.take(offset) =~= file.take(offset));
    assert(after.subrange(offset, offset + main + n) =~= rows + heap);
}

} // verus!
