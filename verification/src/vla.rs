//! Cells in the heap: what they are made of, where they go, and the rows that
//! point to them.

use vstd::prelude::*;

use crate::bytes::{copy_of, pack_bits, packed_bits, swap_units, swapped};
use crate::columns::{
    Column, ColumnView, Letter, byteswap_unit, cell_bytes, cell_bytes_of, element_size, swap_width,
    views,
};
use crate::encode::{logical_letters, natural_kind};
use crate::error::{VarError, WriteError};
use crate::heap::{find_non_ascii, first_non_ascii};

verus! {

// Cells --------------------------------------------------------------------

/// What a caller gives for a cell in the heap.
#[derive(Debug)]
pub enum VarInput {
    /// Bytes.
    Bytes(Vec<u8>),
    /// A text.
    Text(String),
    /// An array, and its bytes.
    Array { shape: Vec<usize>, kind: char, itemsize: usize, contiguous: bool, bytes: Vec<u8> },
    /// Something else.
    Other,
}

/// Whether the bytes of an array are all there.
pub open spec fn var_input_ok(c: VarInput) -> bool {
    c matches VarInput::Array { shape, kind, itemsize, contiguous, bytes } ==> (shape@.len() == 1
        ==> bytes@.len() >= shape@[0] * itemsize)
}

/// The bytes of a text.
pub open spec fn text_bytes(s: Seq<char>) -> Seq<u8> {
    vstd::utf8::encode_utf8(s)
}

/// How many elements a cell has, or why it is none for an element type.
pub open spec fn var_count(c: VarInput, letter: Letter) -> Result<usize, VarError> {
    if letter is A {
        match c {
            VarInput::Bytes(b) => Ok(b@.len() as usize),
            VarInput::Text(s) => match first_non_ascii(text_bytes(s@)) {
                Some(i) => Err(
                    VarError::NonAsciiByte { byte: text_bytes(s@)[i], position: i as usize },
                ),
                None => Ok(text_bytes(s@).len() as usize),
            },
            _ => Err(VarError::NotString),
        }
    } else {
        match c {
            VarInput::Array { shape, kind, itemsize, contiguous, bytes } => {
                let size = match element_size(letter) {
                    Some(w) => w,
                    None => 1,
                };
                if shape@.len() != 1 {
                    Err(VarError::NotOneAxis)
                } else if kind != natural_kind(letter) || itemsize != size {
                    Err(VarError::NeedsKind { kind: natural_kind(letter), size })
                } else if shape@[0] > 0 && !contiguous {
                    Err(VarError::NotContiguous)
                } else {
                    Ok(shape@[0])
                }
            },
            _ => Err(VarError::NotArray),
        }
    }
}

/// The kind and the size of the elements that a cell of an element type has.
pub fn vla_cell_expected_dtype(letter: Letter) -> (r: (char, usize))
    ensures
        r.0 == natural_kind(letter),
        r.1 == match element_size(letter) {
            Some(w) => w,
            None => 1,
        },
{
    match letter {
        Letter::L | Letter::X => ('b', 1),
        Letter::B => ('u', 1),
        Letter::I => ('i', 2),
        Letter::J => ('i', 4),
        Letter::K => ('i', 8),
        Letter::E => ('f', 4),
        Letter::D => ('f', 8),
        Letter::C => ('c', 8),
        Letter::M => ('c', 16),
        Letter::A => ('S', 1),
    }
}

/// Counts the elements of a cell.
pub fn validate_vla_cell(c: &VarInput, letter: Letter) -> (r: Result<usize, VarError>)
    ensures
        r == var_count(*c, letter),
{
    let is_text: bool = match letter {
        Letter::A => true,
        _ => false,
    };
    if is_text {
        return match c {
            VarInput::Bytes(b) => Ok(b.len()),
            VarInput::Text(s) => {
                let b: &[u8] = s.as_str().as_bytes();
                match find_non_ascii(b) {
                    Some(i) => Err(VarError::NonAsciiByte { byte: b[i], position: i }),
                    None => Ok(b.len()),
                }
            },
            _ => Err(VarError::NotString),
        };
    }
    match c {
        VarInput::Array { shape, kind, itemsize, contiguous, bytes: _ } => {
            if shape.len() != 1 {
                return Err(VarError::NotOneAxis);
            }
            let (want, size): (char, usize) = vla_cell_expected_dtype(letter);
            if *kind != want || *itemsize != size {
                return Err(VarError::NeedsKind { kind: want, size });
            }
            if shape[0] > 0 && !*contiguous {
                return Err(VarError::NotContiguous);
            }
            Ok(shape[0])
        },
        _ => Err(VarError::NotArray),
    }
}

/// The bytes of a value whose elements are given in little-endian order, as
/// they stand in the heap.
pub open spec fn heap_form(letter: Letter, src: Seq<u8>) -> Seq<u8> {
    match letter {
        Letter::X => packed_bits(src),
        Letter::L => logical_letters(src),
        _ => swapped(src, swap_width(letter) as int),
    }
}

/// The bytes of a cell in the heap.
pub open spec fn var_bytes(c: VarInput, letter: Letter) -> Seq<u8> {
    match c {
        VarInput::Bytes(b) => b@,
        VarInput::Text(s) => text_bytes(s@),
        VarInput::Array { shape, kind, itemsize, contiguous, bytes } => heap_form(
            letter,
            bytes@.take((shape@[0] * itemsize) as int),
        ),
        VarInput::Other => Seq::empty(),
    }
}

/// A cell has as many bytes as its elements need.
pub proof fn lemma_var_bytes(c: VarInput, letter: Letter)
    requires
        var_input_ok(c),
        var_count(c, letter) is Ok,
        c matches VarInput::Bytes(b) ==> b@.len() <= usize::MAX,
        c matches VarInput::Text(s) ==> text_bytes(s@).len() <= usize::MAX,
    ensures
        var_bytes(c, letter).len() == cell_bytes(letter, var_count(c, letter)->Ok_0 as nat),
{
    match c {
        VarInput::Array { shape, kind, itemsize, contiguous, bytes } => {
            let n = shape@[0] as int;
            assert(n * itemsize >= 0) by (nonlinear_arith)
                requires
                    n >= 0,
                    itemsize >= 0,
            ;
            if letter is X {
                assert(n * 1 == n);
            }
        },
        VarInput::Bytes(b) => {
            assert(b@.len() * 1 == b@.len());
        },
        VarInput::Text(s) => {
            assert(text_bytes(s@).len() * 1 == text_bytes(s@).len());
        },
        VarInput::Other => {},
    }
}

/// The bytes of a cell in the heap.
pub fn serialize_vla_cell(c: &VarInput, letter: Letter) -> (r: Vec<u8>)
    requires
        var_input_ok(*c),
        var_count(*c, letter) is Ok,
    ensures
        r@ == var_bytes(*c, letter),
        r@.len() == cell_bytes(letter, var_count(*c, letter)->Ok_0 as nat),
{
    match c {
        VarInput::Bytes(b) => {
            let n: usize = b.len();
            proof {
                lemma_var_bytes(*c, letter);
            }
            let r: Vec<u8> = copy_of(b, 0, n);
            assert(r@ =~= b@);
            r
        },
        VarInput::Text(s) => {
            let b: &[u8] = s.as_str().as_bytes();
            let n: usize = b.len();
            proof {
                lemma_var_bytes(*c, letter);
            }
            let r: Vec<u8> = copy_of(b, 0, n);
            assert(r@ =~= b@);
            r
        },
        VarInput::Array { shape, kind: _, itemsize, contiguous: _, bytes } => {
            proof {
                lemma_var_bytes(*c, letter);
                let n = shape@[0] as int;
                assert(n * *itemsize >= 0) by (nonlinear_arith)
                    requires
                        n >= 0,
                        *itemsize >= 0,
                ;
            }
            let total: usize = bytes.len();
            let src: Vec<u8> = copy_of(bytes, 0, shape[0] * *itemsize);
            assert(src@ =~= bytes@.take((shape@[0] * *itemsize) as int));
            match letter {
                Letter::X => pack_bits(&src),
                Letter::L => to_letters(&src),
                _ => swap_units(&src, byteswap_unit(letter)),
            }
        },
        VarInput::Other => {
            let r: Vec<u8> = Vec::new();
            assert(r@ =~= Seq::empty());
            r
        },
    }
}

fn to_letters(src: &Vec<u8>) -> (r: Vec<u8>)
    ensures
        r@ == logical_letters(src@),
{
    let n: usize = src.len();
    let mut r: Vec<u8> = Vec::new();
    let mut i: usize = 0;
    while i < n
        invariant
            i <= n == src@.len(),
            r@ == logical_letters(src@).take(i as int),
        decreases n - i,
    {
        r.push(
            if src[i] == 0 {
                70
            } else {
                84
            },
        );
        i = i + 1;
        assert(r@ =~= logical_letters(src@).take(i as int));
    }
    assert(r@ =~= logical_letters(src@));
    r
}

// The layout of the heap ---------------------------------------------------

/// Where the cell of a row goes: how many elements it has, and its offset in
/// the heap.
#[derive(Clone, Copy, PartialEq, Eq, Structural, Debug)]
pub struct VlaCellPlan {
    pub nelements: usize,
    pub offset: usize,
}

/// How many elements the cell of column `i` in row `r` has.
pub open spec fn count_at(
    cols: Seq<ColumnView>,
    cells: Seq<Vec<VarInput>>,
    i: int,
    r: int,
) -> Result<usize, VarError> {
    var_count(cells[i]@[r], cols[i].letter)
}

/// The bytes of the cell of column `i` in row `r`; none where the column has no
/// cells in the heap.
pub open spec fn bytes_at(cols: Seq<ColumnView>, cells: Seq<Vec<VarInput>>, i: int, r: int) -> int {
    if cols[i].var_kind is Some {
        cell_bytes(cols[i].letter, count_at(cols, cells, i, r)->Ok_0 as nat) as int
    } else {
        0
    }
}

/// The bytes of the cells of the first `k` columns in row `r`.
pub open spec fn row_bytes(cols: Seq<ColumnView>, cells: Seq<Vec<VarInput>>, r: int, k: int) -> int
    decreases k,
{
    if k <= 0 {
        0
    } else {
        row_bytes(cols, cells, r, k - 1) + bytes_at(cols, cells, k - 1, r)
    }
}

/// The bytes of the cells of the first `r` rows.
pub open spec fn rows_bytes(cols: Seq<ColumnView>, cells: Seq<Vec<VarInput>>, r: int) -> int
    decreases r,
{
    if r <= 0 {
        0
    } else {
        rows_bytes(cols, cells, r - 1) + row_bytes(cols, cells, r - 1, cols.len() as int)
    }
}

/// The heap offset of the cell of column `k` in row `r`: rows come one behind
/// the other from `start` on, and in a row the columns do.
pub open spec fn offset_at(
    cols: Seq<ColumnView>,
    cells: Seq<Vec<VarInput>>,
    start: int,
    r: int,
    k: int,
) -> int {
    start + rows_bytes(cols, cells, r) + row_bytes(cols, cells, r, k)
}

/// The first error among the cells of the first `k` columns in row `r`.
pub open spec fn row_error(
    cols: Seq<ColumnView>,
    cells: Seq<Vec<VarInput>>,
    start: int,
    r: int,
    k: nat,
) -> Option<WriteError>
    decreases k,
{
    if k == 0 {
        None
    } else {
        let i = k - 1;
        match row_error(cols, cells, start, r, (k - 1) as nat) {
            Some(e) => Some(e),
            None => if cols[i].var_kind is None {
                None
            } else {
                match count_at(cols, cells, i, r) {
                    Err(heap) => Some(
                        WriteError::HeapCell { column: i as usize, row: r as usize, heap },
                    ),
                    Ok(n) => if offset_at(cols, cells, start, r, k as int) > usize::MAX {
                        Some(WriteError::HeapTooLarge)
                    } else {
                        None
                    },
                }
            },
        }
    }
}

/// The first error among the cells of the first `r` rows.
pub open spec fn rows_error(
    cols: Seq<ColumnView>,
    cells: Seq<Vec<VarInput>>,
    start: int,
    r: nat,
) -> Option<WriteError>
    decreases r,
{
    if r == 0 {
        None
    } else {
        match rows_error(cols, cells, start, (r - 1) as nat) {
            Some(e) => Some(e),
            None => row_error(cols, cells, start, r - 1, cols.len()),
        }
    }
}

proof fn lemma_row_error(
    cols: Seq<ColumnView>,
    cells: Seq<Vec<VarInput>>,
    start: int,
    r: int,
    m: nat,
    k: nat,
)
    requires
        m <= k,
        row_error(cols, cells, start, r, m) is Some,
    ensures
        row_error(cols, cells, start, r, k) == row_error(cols, cells, start, r, m),
    decreases k,
{
    if m < k {
        lemma_row_error(cols, cells, start, r, m, (k - 1) as nat);
    }
}

proof fn lemma_rows_error(
    cols: Seq<ColumnView>,
    cells: Seq<Vec<VarInput>>,
    start: int,
    m: nat,
    r: nat,
)
    requires
        m <= r,
        rows_error(cols, cells, start, m) is Some,
    ensures
        rows_error(cols, cells, start, r) == rows_error(cols, cells, start, m),
    decreases r,
{
    if m < r {
        lemma_rows_error(cols, cells, start, m, (r - 1) as nat);
    }
}

/// The cells of a row are not fewer bytes for more columns.
pub proof fn lemma_row_bytes(
    cols: Seq<ColumnView>,
    cells: Seq<Vec<VarInput>>,
    r: int,
    j: int,
    k: int,
)
    requires
        0 <= j <= k <= cols.len(),
    ensures
        0 <= row_bytes(cols, cells, r, j) <= row_bytes(cols, cells, r, k),
    decreases k,
{
    if j < k {
        lemma_row_bytes(cols, cells, r, j, k - 1);
        lemma_bytes_at(cols, cells, k - 1, r);
    } else if k > 0 {
        lemma_row_bytes(cols, cells, r, 0, k - 1);
        lemma_bytes_at(cols, cells, k - 1, r);
    }
}

proof fn lemma_bytes_at(cols: Seq<ColumnView>, cells: Seq<Vec<VarInput>>, i: int, r: int)
    ensures
        0 <= bytes_at(cols, cells, i, r),
{
}

/// The cells of rows are not fewer bytes for more rows.
pub proof fn lemma_rows_bytes(cols: Seq<ColumnView>, cells: Seq<Vec<VarInput>>, q: int, r: int)
    requires
        0 <= q <= r,
    ensures
        0 <= rows_bytes(cols, cells, q) <= rows_bytes(cols, cells, r),
        q < r ==> rows_bytes(cols, cells, q) + row_bytes(cols, cells, q, cols.len() as int)
            <= rows_bytes(cols, cells, r),
    decreases r,
{
    if r > 0 {
        lemma_row_bytes(cols, cells, r - 1, 0, cols.len() as int);
        if q < r {
            lemma_rows_bytes(cols, cells, q, r - 1);
        } else {
            lemma_rows_bytes(cols, cells, q - 1, r - 1);
        }
    }
}

/// Whether plans hold the cells of the first `n` rows of column `i`.
pub open spec fn plans_hold(
    cols: Seq<ColumnView>,
    cells: Seq<Vec<VarInput>>,
    start: int,
    plans: Seq<VlaCellPlan>,
    i: int,
    n: int,
) -> bool {
    if cols[i].var_kind is Some {
        &&& plans.len() == n
        &&& forall|r: int|
            0 <= r < n ==> count_at(cols, cells, i, r) == Ok::<usize, VarError>(
                (#[trigger] plans[r]).nelements,
            ) && plans[r].offset == offset_at(cols, cells, start, r, i)
    } else {
        plans.len() == 0
    }
}

/// Whether there is a cell for each row of each column in the heap, and the
/// bytes of arrays are there.
pub open spec fn cells_ok(cols: Seq<ColumnView>, cells: Seq<Vec<VarInput>>, nrows: int) -> bool {
    &&& cells.len() == cols.len()
    &&& forall|i: int|
        0 <= i < cols.len() && cols[i].var_kind is Some ==> (#[trigger] cells[i])@.len() >= nrows
    &&& forall|i: int, r: int|
        0 <= i < cells.len() && 0 <= r < cells[i]@.len() ==> var_input_ok(#[trigger] cells[i]@[r])
}

/// Plans where the cells of rows go in the heap, from `start` on: per column
/// and row the count and the offset, and the end of the heap.
pub fn plan_vla_heap_layout(
    columns: &[Column],
    cells: &Vec<Vec<VarInput>>,
    nrows: usize,
    start: usize,
) -> (r: Result<(Vec<Vec<VlaCellPlan>>, usize), WriteError>)
    requires
        cells_ok(views(columns@), cells@, nrows as int),
    ensures
        match rows_error(views(columns@), cells@, start as int, nrows as nat) {
            Some(e) => r == Err::<(Vec<Vec<VlaCellPlan>>, usize), WriteError>(e),
            None => r matches Ok((plans, total)) && plans@.len() == columns@.len() && total
                == start + rows_bytes(views(columns@), cells@, nrows as int) && forall|i: int|
                0 <= i < plans@.len() ==> plans_hold(
                    views(columns@),
                    cells@,
                    start as int,
                    (#[trigger] plans@[i])@,
                    i,
                    nrows as int,
                ),
        },
{
    let n: usize = columns.len();
    let ghost cols = views(columns@);
    let mut plans: Vec<Vec<VlaCellPlan>> = Vec::new();
    let mut j: usize = 0;
    while j < n
        invariant
            j <= n == columns@.len() == cols.len(),
            plans@.len() == j,
            forall|i: int| 0 <= i < j ==> (#[trigger] plans@[i])@.len() == 0,
        decreases n - j,
    {
        plans.push(Vec::new());
        j = j + 1;
    }
    let mut cursor: usize = start;
    let mut r: usize = 0;
    while r < nrows
        invariant
            r <= nrows,
            n == columns@.len() == cols.len() == plans@.len(),
            cols == views(columns@),
            cells_ok(cols, cells@, nrows as int),
            rows_error(cols, cells@, start as int, r as nat) is None,
            cursor == start + rows_bytes(cols, cells@, r as int),
            forall|i: int|
                0 <= i < n ==> plans_hold(
                    cols,
                    cells@,
                    start as int,
                    (#[trigger] plans@[i])@,
                    i,
                    r as int,
                ),
        decreases nrows - r,
    {
        let mut i: usize = 0;
        while i < n
            invariant
                i <= n,
                r < nrows,
                n == columns@.len() == cols.len() == plans@.len(),
                cols == views(columns@),
                cells_ok(cols, cells@, nrows as int),
                rows_error(cols, cells@, start as int, r as nat) is None,
                row_error(cols, cells@, start as int, r as int, i as nat) is None,
                cursor == offset_at(cols, cells@, start as int, r as int, i as int),
                forall|k: int|
                    0 <= k < n ==> plans_hold(
                        cols,
                        cells@,
                        start as int,
                        (#[trigger] plans@[k])@,
                        k,
                        if k < i {
                            r + 1
                        } else {
                            r as int
                        },
                    ),
            decreases n - i,
        {
            let col: &Column = &columns[i];
            assert(cols[i as int] == col@);
            if col.var_kind.is_some() {
                assert(cells@[i as int]@.len() >= nrows);
                match validate_vla_cell(&cells[i][r], col.letter) {
                    Err(heap) => {
                        proof {
                            lemma_row_error(
                                cols,
                                cells@,
                                start as int,
                                r as int,
                                (i + 1) as nat,
                                n as nat,
                            );
                            lemma_rows_error(
                                cols,
                                cells@,
                                start as int,
                                (r + 1) as nat,
                                nrows as nat,
                            );
                        }
                        return Err(WriteError::HeapCell { column: i, row: r, heap });
                    },
                    Ok(nelements) => {
                        let end: Option<usize> = match cell_bytes_of(col.letter, nelements) {
                            None => None,
                            Some(b) => cursor.checked_add(b),
                        };
                        match end {
                            None => {
                                proof {
                                    lemma_row_error(
                                        cols,
                                        cells@,
                                        start as int,
                                        r as int,
                                        (i + 1) as nat,
                                        n as nat,
                                    );
                                    lemma_rows_error(
                                        cols,
                                        cells@,
                                        start as int,
                                        (r + 1) as nat,
                                        nrows as nat,
                                    );
                                }
                                return Err(WriteError::HeapTooLarge);
                            },
                            Some(e) => {
                                let ghost before = plans@;
                                let plan: VlaCellPlan = VlaCellPlan { nelements, offset: cursor };
                                push_plan(&mut plans, i, plan);
                                proof {
                                    assert forall|k: int| 0 <= k < n implies plans_hold(
                                        cols,
                                        cells@,
                                        start as int,
                                        (#[trigger] plans@[k])@,
                                        k,
                                        if k < i + 1 {
                                            r + 1
                                        } else {
                                            r as int
                                        },
                                    ) by {
                                        assert(plans_hold(
                                            cols,
                                            cells@,
                                            start as int,
                                            before[k]@,
                                            k,
                                            if k < i {
                                                r + 1
                                            } else {
                                                r as int
                                            },
                                        ));
                                        if k == i {
                                            assert(plans@[k]@ == before[k]@.push(plan));
                                        } else {
                                            assert(plans@[k]@ == before[k]@);
                                        }
                                    }
                                }
                                cursor = e;
                            },
                        }
                    },
                }
            } else {
                proof {
                    assert(plans_hold(
                        cols,
                        cells@,
                        start as int,
                        plans@[i as int]@,
                        i as int,
                        r as int,
                    ));
                }
            }
            i = i + 1;
        }
        r = r + 1;
    }
    Ok((plans, cursor))
}

fn push_plan(plans: &mut Vec<Vec<VlaCellPlan>>, i: usize, plan: VlaCellPlan)
    requires
        i < old(plans)@.len(),
    ensures
        final(plans)@.len() == old(plans)@.len(),
        final(plans)@[i as int]@ == old(plans)@[i as int]@.push(plan),
        forall|k: int|
            0 <= k < old(plans)@.len() && k != i ==> (#[trigger] final(plans)@[k]) == old(plans)@[k],
{
    plans[i].push(plan);
}

} // verus!
