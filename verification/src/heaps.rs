//! Where the cells in the heap are, and how large they are.

use vstd::prelude::*;

use crate::bytes::{be_bytes, lemma_be_bytes_value, lemma_pow256};
use crate::codes::{bytes_are, law_bytes_of_elements};
use crate::columns::{ColumnView, Descriptor, Letter, descriptor_size};
use crate::heap::{descriptor_for, descriptor_value, heap_span};
use crate::keywords::{count_of, heap_base};
use crate::repack::{custom_heap, live_cell, live_row, live_rows, pointed};
use crate::values::{file_value, half_range, lemma_file_value, lemma_signed, signed};

verus! {

/// The bytes of one of the two numbers of a descriptor: 32 or 64 bits.
pub open spec fn number_bytes(kind: Descriptor) -> int {
    match kind {
        Descriptor::P => 4,
        Descriptor::Q => 8,
    }
}

/// A descriptor is two signed numbers, the most significant byte first: how many
/// elements the cell has, and then where it starts in the heap.
pub proof fn law_descriptor(kind: Descriptor, src: Seq<u8>)
    requires
        src.len() == 2 * number_bytes(kind),
    ensures
        src.len() == descriptor_size(kind),
        ({
            let w = number_bytes(kind);
            descriptor_value(kind, src) == (
                signed(file_value(src.subrange(0, w)), w),
                signed(file_value(src.subrange(w, 2 * w)), w),
            )
        }),
{
    let w = number_bytes(kind);
    let a = src.subrange(0, w);
    let b = src.subrange(w, 2 * w);
    lemma_signed(a);
    lemma_signed(b);
    lemma_file_value(a);
    lemma_file_value(b);
}

/// A descriptor that is written holds the count and then the offset.
pub proof fn law_descriptor_written(kind: Descriptor, n: nat, off: nat)
    requires
        n < 2 * half_range(number_bytes(kind)),
        off < 2 * half_range(number_bytes(kind)),
    ensures
        ({
            let w = number_bytes(kind);
            let d = descriptor_for(kind, n, off);
            &&& d.len() == 2 * w
            &&& file_value(d.subrange(0, w)) == n
            &&& file_value(d.subrange(w, 2 * w)) == off
        }),
{
    let w = number_bytes(kind);
    let d = descriptor_for(kind, n, off);
    lemma_pow256();
    lemma_be_bytes_value(n, w as nat);
    lemma_be_bytes_value(off, w as nat);
    assert(d.subrange(0, w) =~= be_bytes(n, w as nat));
    assert(d.subrange(w, 2 * w) =~= be_bytes(off, w as nat));
    lemma_file_value(d.subrange(0, w));
    lemma_file_value(d.subrange(w, 2 * w));
}

/// The bytes of a cell in the heap start at its offset behind the start of the
/// heap, and are those of its elements. Negative counts and offsets are refused.
pub proof fn law_heap_span(letter: Letter, n: i64, off: i64, base: u64, bytes: int)
    requires
        n >= 0 ==> bytes_are(letter, n as int, bytes),
    ensures
        match heap_span(letter, n, off, base) {
            Ok((at, len)) => n >= 0 && off >= 0 && at == base + off && len == bytes,
            Err(_) => n < 0 || off < 0 || bytes > usize::MAX || n > usize::MAX || base + off
                > u64::MAX,
        },
{
    if n >= 0 {
        law_bytes_of_elements(letter, n as nat, bytes);
    }
}

/// The heap starts where THEAP says, and else right behind the rows. Numbers that
/// are missing or negative count as none.
pub proof fn law_heap_base(naxis1: Option<i64>, naxis2: Option<i64>, theap: Option<i64>)
    ensures
        theap is Some && theap->0 > 0 ==> heap_base(naxis1, naxis2, theap) == theap->0,
        (theap is None || theap->0 <= 0) && naxis1 is Some && naxis2 is Some && naxis1->0 >= 0
            && naxis2->0 >= 0 && naxis1->0 * naxis2->0 <= u64::MAX ==> heap_base(
            naxis1,
            naxis2,
            theap,
        ) == naxis1->0 * naxis2->0,
        (theap is None || theap->0 <= 0) && (naxis1 is None || naxis2 is None || naxis1->0 <= 0
            || naxis2->0 <= 0) ==> heap_base(naxis1, naxis2, theap) == 0,
        naxis1 is Some && naxis1->0 >= 0 ==> count_of(naxis1) == naxis1->0,
        naxis1 is None || naxis1->0 < 0 ==> count_of(naxis1) == 0,
{
    let a = count_of(naxis1) as int;
    let b = count_of(naxis2) as int;
    assert(a == 0 || b == 0 ==> a * b == 0) by (nonlinear_arith);
}

/// What is pointed to is just the bytes of the elements, from the offset on.
/// Descriptors that are negative or point past the heap are refused.
pub proof fn law_pointed(letter: Letter, n: int, off: int, heap: Seq<u8>, bytes: int)
    requires
        n >= 0 ==> bytes_are(letter, n, bytes),
        heap.len() <= u64::MAX,
    ensures
        match pointed(letter, (n, off), heap) {
            Ok(v) => n >= 0 && off >= 0 && off + bytes <= heap.len() && v == heap.subrange(
                off,
                off + bytes,
            ),
            Err(_) => n < 0 || off < 0 || off + bytes > heap.len(),
        },
{
    if n >= 0 {
        law_bytes_of_elements(letter, n as nat, bytes);
    }
}

/// The bytes that the cells of the first `k` columns in row `r` take in the heap.
pub open spec fn row_size(
    cols: Seq<ColumnView>,
    main: Seq<u8>,
    rw: int,
    heap: Seq<u8>,
    r: int,
    k: int,
) -> int
    decreases k,
{
    if k <= 0 {
        0
    } else {
        row_size(cols, main, rw, heap, r, k - 1) + if cols[k - 1].var_kind is Some {
            live_cell(cols, main, rw, heap, r, k - 1)->Ok_0.len() as int
        } else {
            0
        }
    }
}

/// The bytes that the cells of the first `n` rows take in the heap.
pub open spec fn table_size(
    cols: Seq<ColumnView>,
    main: Seq<u8>,
    rw: int,
    heap: Seq<u8>,
    n: int,
) -> int
    decreases n,
{
    if n <= 0 {
        0
    } else {
        table_size(cols, main, rw, heap, n - 1) + row_size(
            cols,
            main,
            rw,
            heap,
            n - 1,
            cols.len() as int,
        )
    }
}

proof fn lemma_row_size(
    cols: Seq<ColumnView>,
    main: Seq<u8>,
    rw: int,
    heap: Seq<u8>,
    r: int,
    k: int,
)
    ensures
        live_row(cols, main, rw, heap, r, k).len() == row_size(cols, main, rw, heap, r, k),
    decreases k,
{
    if k > 0 {
        lemma_row_size(cols, main, rw, heap, r, k - 1);
    }
}

/// A repacked heap holds the cells of the rows and nothing else: it is as large as
/// they are together.
pub proof fn law_packed_size(
    cols: Seq<ColumnView>,
    main: Seq<u8>,
    rw: int,
    heap: Seq<u8>,
    n: int,
)
    ensures
        live_rows(cols, main, rw, heap, n).len() == table_size(cols, main, rw, heap, n),
    decreases n,
{
    if n > 0 {
        law_packed_size(cols, main, rw, heap, n - 1);
        lemma_row_size(cols, main, rw, heap, n - 1, cols.len() as int);
    }
}

/// A heap that does not start right behind the rows is refused where it would
/// have to move.
pub proof fn law_custom_heap(theap: i64, nrows: usize, row_width: usize)
    ensures
        custom_heap(theap, nrows, row_width) is None <==> theap <= 0 || theap == nrows * row_width,
{
}

} // verus!
