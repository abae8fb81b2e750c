//! What a read with a mask of nulls marks.

use vstd::prelude::*;

use crate::bytes::{lemma_unit_below, splice};
use crate::cells::null_mask;
use crate::columns::{ColumnView, column_ok};
use crate::fields::read_scaling;
use crate::read::{
    FieldPlace, ReadPlan, cell_of, first_var_null, plan_is, plan_kinds, read_plan_of, row_mask,
    rows_mask,
};
use crate::rows::RowSelector;
use crate::values::{file_integer, integers_of, law_nulls_marked};

verus! {

/// Whether the fields of mask records that are marked lie in the record and
/// apart from each other: one byte for each element of a column with a null.
pub open spec fn marks_apart(
    cols: Seq<ColumnView>,
    places: Seq<FieldPlace>,
    itemsize: int,
) -> bool {
    &&& places.len() == cols.len()
    &&& forall|i: int|
        0 <= i < cols.len() && (#[trigger] cols[i]).tnull is Some ==> places[i].offset
            + cols[i].repeat <= itemsize
    &&& forall|i: int, j: int|
        0 <= i < cols.len() && 0 <= j < cols.len() && i != j && (#[trigger] cols[i]).tnull is Some
            && (#[trigger] cols[j]).tnull is Some ==> places[i].offset + cols[i].repeat
            <= places[j].offset || places[j].offset + cols[j].repeat <= places[i].offset
}

/// Whether a byte of a mask record belongs to one of the first `n` columns.
pub open spec fn in_marks(cols: Seq<ColumnView>, places: Seq<FieldPlace>, n: int, y: int) -> bool {
    exists|i: int|
        0 <= i < n && (#[trigger] cols[i]).tnull is Some && places[i].offset <= y
            < places[i].offset + cols[i].repeat
}

/// Whether the field of column `i` in the mask record at `base` is the mask of
/// its cell in a row.
spec fn marked(
    cols: Seq<ColumnView>,
    places: Seq<FieldPlace>,
    base: int,
    row: Seq<u8>,
    mask: Seq<u8>,
    i: int,
) -> bool {
    cols[i].tnull matches Some(t) ==> forall|k: int|
        0 <= k < cols[i].repeat ==> #[trigger] mask[base + places[i].offset + k] == null_mask(
            cols[i].letter,
            cols[i].repeat as nat,
            t,
            cell_of(cols[i], row),
        )[k]
}

proof fn lemma_row_mask(
    cols: Seq<ColumnView>,
    places: Seq<FieldPlace>,
    itemsize: int,
    base: int,
    row: Seq<u8>,
    mask: Seq<u8>,
    n: nat,
)
    requires
        marks_apart(cols, places, itemsize),
        0 <= base,
        base + itemsize <= mask.len(),
        n <= cols.len(),
    ensures
        ({
            let m = row_mask(cols, places, base, row, mask, n);
            &&& m.len() == mask.len()
            &&& forall|i: int| 0 <= i < n ==> #[trigger] marked(cols, places, base, row, m, i)
            &&& forall|x: int|
                0 <= x < m.len() && !(0 <= x - base < itemsize && in_marks(
                    cols,
                    places,
                    n as int,
                    x - base,
                )) ==> #[trigger] m[x] == mask[x]
        }),
    decreases n,
{
    if n > 0 {
        let i = n - 1;
        let p = row_mask(cols, places, base, row, mask, (n - 1) as nat);
        let m = row_mask(cols, places, base, row, mask, n);
        lemma_row_mask(cols, places, itemsize, base, row, mask, (n - 1) as nat);
        match cols[i].tnull {
            None => {
                assert forall|x: int| 0 <= x < m.len() && !(0 <= x - base < itemsize && in_marks(
                    cols,
                    places,
                    n as int,
                    x - base,
                )) implies #[trigger] m[x] == mask[x] by {
                    if in_marks(cols, places, n - 1, x - base) {
                        let j = choose|j: int|
                            0 <= j < n - 1 && (#[trigger] cols[j]).tnull is Some
                                && places[j].offset <= x - base < places[j].offset
                                + cols[j].repeat;
                        assert(cols[j].tnull is Some);
                    }
                }
            },
            Some(t) => {
                let f = null_mask(
                    cols[i].letter,
                    cols[i].repeat as nat,
                    t,
                    cell_of(cols[i], row),
                );
                let from = base + places[i].offset;
                assert(m == splice(p, from, f));
                assert(cols[i].tnull is Some);
                assert forall|j: int| 0 <= j < n implies #[trigger] marked(
                    cols,
                    places,
                    base,
                    row,
                    m,
                    j,
                ) by {
                    if j < i && cols[j].tnull is Some {
                        assert(marked(cols, places, base, row, p, j));
                        let g = null_mask(
                            cols[j].letter,
                            cols[j].repeat as nat,
                            cols[j].tnull->0,
                            cell_of(cols[j], row),
                        );
                        assert forall|k: int| 0 <= k < cols[j].repeat implies #[trigger] m[base
                            + places[j].offset + k] == g[k] by {
                            assert(p[base + places[j].offset + k] == g[k]);
                        }
                    }
                }
                assert forall|x: int| 0 <= x < m.len() && !(0 <= x - base < itemsize && in_marks(
                    cols,
                    places,
                    n as int,
                    x - base,
                )) implies #[trigger] m[x] == mask[x] by {
                    if from <= x < from + f.len() {
                        assert(in_marks(cols, places, n as int, x - base));
                    }
                    if in_marks(cols, places, n - 1, x - base) {
                        let j = choose|j: int|
                            0 <= j < n - 1 && (#[trigger] cols[j]).tnull is Some
                                && places[j].offset <= x - base < places[j].offset
                                + cols[j].repeat;
                        assert(cols[j].tnull is Some);
                    }
                    assert(p[x] == mask[x]);
                }
            },
        }
    }
}

proof fn lemma_rows_mask(
    cols: Seq<ColumnView>,
    places: Seq<FieldPlace>,
    itemsize: int,
    rows: Seq<Seq<u8>>,
    pairs: Seq<(i64, usize)>,
    mask: Seq<u8>,
)
    requires
        marks_apart(cols, places, itemsize),
        0 <= itemsize,
        rows.len() <= pairs.len(),
        forall|t: int|
            0 <= t < rows.len() ==> (#[trigger] pairs[t]).1 * itemsize + itemsize <= mask.len(),
        forall|t: int, u: int|
            0 <= t < u < rows.len() ==> (#[trigger] pairs[t]).1 != (#[trigger] pairs[u]).1,
    ensures
        ({
            let m = rows_mask(cols, places, itemsize, rows, pairs, mask);
            &&& m.len() == mask.len()
            &&& forall|t: int, i: int|
                0 <= t < rows.len() && 0 <= i < cols.len() ==> #[trigger] marked(
                    cols,
                    places,
                    pairs[t].1 * itemsize,
                    rows[t],
                    m,
                    i,
                )
            &&& forall|r: int, y: int|
                0 <= r && 0 <= y < itemsize && r * itemsize + itemsize <= mask.len() && (
                !in_marks(cols, places, cols.len() as int, y) || forall|t: int|
                    0 <= t < rows.len() ==> (#[trigger] pairs[t]).1 != r) ==> #[trigger] m[r
                    * itemsize + y] == mask[r * itemsize + y]
        }),
    decreases rows.len(),
{
    if rows.len() > 0 {
        let last = rows.len() - 1;
        let base = pairs[last].1 * itemsize;
        let p = rows_mask(cols, places, itemsize, rows.drop_last(), pairs, mask);
        let m = rows_mask(cols, places, itemsize, rows, pairs, mask);
        lemma_rows_mask(cols, places, itemsize, rows.drop_last(), pairs, mask);
        assert(pairs[last].1 * itemsize + itemsize <= mask.len());
        assert(base >= 0) by (nonlinear_arith)
            requires
                base == pairs[last].1 * itemsize,
                itemsize >= 0,
        ;
        lemma_row_mask(cols, places, itemsize, base, rows.last(), p, cols.len());
        assert forall|t: int, i: int|
            0 <= t < rows.len() && 0 <= i < cols.len() implies #[trigger] marked(
            cols,
            places,
            pairs[t].1 * itemsize,
            rows[t],
            m,
            i,
        ) by {
            if t < last {
                let at = pairs[t].1 * itemsize;
                assert(rows.drop_last()[t] == rows[t]);
                assert(marked(cols, places, at, rows[t], p, i));
                assert(pairs[t].1 != pairs[last].1);
                if cols[i].tnull is Some {
                    let f = null_mask(
                        cols[i].letter,
                        cols[i].repeat as nat,
                        cols[i].tnull->0,
                        cell_of(cols[i], rows[t]),
                    );
                    assert(pairs[t].1 * itemsize + itemsize <= mask.len());
                    assert(at >= 0) by (nonlinear_arith)
                        requires
                            at == pairs[t].1 * itemsize,
                            itemsize >= 0,
                    ;
                    assert forall|k: int| 0 <= k < cols[i].repeat implies #[trigger] m[at
                        + places[i].offset + k] == f[k] by {
                        let y = places[i].offset + k;
                        lemma_apart(pairs[t].1 as int, pairs[last].1 as int, itemsize, y);
                        assert(p[at + places[i].offset + k] == f[k]);
                        assert(m[at + y] == p[at + y]);
                    }
                }
            }
        }
        assert forall|r: int, y: int|
            0 <= r && 0 <= y < itemsize && r * itemsize + itemsize <= mask.len() && (!in_marks(
                cols,
                places,
                cols.len() as int,
                y,
            ) || forall|t: int| 0 <= t < rows.len() ==> (#[trigger] pairs[t]).1 != r) implies
            #[trigger] m[r * itemsize + y] == mask[r * itemsize + y] by {
            assert(r * itemsize >= 0) by (nonlinear_arith)
                requires
                    r >= 0,
                    itemsize >= 0,
            ;
            if r != pairs[last].1 {
                lemma_apart(r, pairs[last].1 as int, itemsize, y);
            }
            assert(m[r * itemsize + y] == p[r * itemsize + y]);
        }
    }
}

proof fn lemma_apart(a: int, b: int, w: int, y: int)
    requires
        a != b,
        0 <= y < w,
    ensures
        !(0 <= a * w + y - b * w < w),
{
    if a < b {
        assert((b - a) * w >= w) by (nonlinear_arith)
            requires
                b - a >= 1,
                w > 0,
        ;
        assert((b - a) * w == b * w - a * w) by (nonlinear_arith);
    } else {
        assert((a - b) * w >= w) by (nonlinear_arith)
            requires
                a - b >= 1,
                w > 0,
        ;
        assert((a - b) * w == a * w - b * w) by (nonlinear_arith);
    }
}

/// What a read with a mask marks: in the record of a row, and in the field of a
/// column of integers of `w` bytes that has a null value, byte `k` is 1 where
/// element `k` of the cell is the null value, and else 0.
pub proof fn law_mask_marks_nulls(
    cols: Seq<ColumnView>,
    places: Seq<FieldPlace>,
    itemsize: int,
    rows: Seq<Seq<u8>>,
    pairs: Seq<(i64, usize)>,
    mask: Seq<u8>,
    t: int,
    i: int,
    w: int,
    k: int,
)
    requires
        marks_apart(cols, places, itemsize),
        0 <= itemsize,
        rows.len() <= pairs.len(),
        forall|t: int|
            0 <= t < rows.len() ==> (#[trigger] pairs[t]).1 * itemsize + itemsize <= mask.len(),
        forall|t: int, u: int|
            0 <= t < u < rows.len() ==> (#[trigger] pairs[t]).1 != (#[trigger] pairs[u]).1,
        0 <= t < rows.len(),
        0 <= i < cols.len(),
        column_ok(cols[i]),
        cols[i].var_kind is None,
        cols[i].tnull is Some,
        cols[i].byte_offset + cols[i].byte_width <= rows[t].len(),
        integers_of(cols[i].letter, w),
        0 <= k < cols[i].repeat,
    ensures
        ({
            let from = cols[i].byte_offset + k * w;
            rows_mask(cols, places, itemsize, rows, pairs, mask)[pairs[t].1 * itemsize
                + places[i].offset + k] == if file_integer(rows[t].subrange(from, from + w), w)
                == cols[i].tnull->0 {
                1u8
            } else {
                0u8
            }
        }),
{
    let c = cols[i];
    let m = rows_mask(cols, places, itemsize, rows, pairs, mask);
    let cell = cell_of(c, rows[t]);
    lemma_rows_mask(cols, places, itemsize, rows, pairs, mask);
    assert(marked(cols, places, pairs[t].1 * itemsize, rows[t], m, i));
    assert(cell.len() == c.repeat * w);
    law_nulls_marked(c.letter, c.repeat as nat, c.tnull->0, cell, w, k);
    lemma_unit_below(k, c.repeat as int, w);
    let from = c.byte_offset + k * w;
    assert(cell.subrange(k * w, k * w + w) =~= rows[t].subrange(from, from + w));
}

/// A read with a mask marks nothing else: a byte of a record stays as it was
/// where it belongs to no column with a null value, or where no row goes to the
/// record.
pub proof fn law_mask_keeps_the_rest(
    cols: Seq<ColumnView>,
    places: Seq<FieldPlace>,
    itemsize: int,
    rows: Seq<Seq<u8>>,
    pairs: Seq<(i64, usize)>,
    mask: Seq<u8>,
    r: int,
    y: int,
)
    requires
        marks_apart(cols, places, itemsize),
        rows.len() <= pairs.len(),
        forall|t: int|
            0 <= t < rows.len() ==> (#[trigger] pairs[t]).1 * itemsize + itemsize <= mask.len(),
        forall|t: int, u: int|
            0 <= t < u < rows.len() ==> (#[trigger] pairs[t]).1 != (#[trigger] pairs[u]).1,
        0 <= r,
        0 <= y < itemsize,
        r * itemsize + itemsize <= mask.len(),
        !in_marks(cols, places, cols.len() as int, y) || forall|t: int|
            0 <= t < rows.len() ==> (#[trigger] pairs[t]).1 != r,
    ensures
        rows_mask(cols, places, itemsize, rows, pairs, mask).len() == mask.len(),
        rows_mask(cols, places, itemsize, rows, pairs, mask)[r * itemsize + y] == mask[r * itemsize
            + y],
{
    lemma_rows_mask(cols, places, itemsize, rows, pairs, mask);
}

/// A plan has a mask where one is asked for and a column has a null value.
/// Cells in the heap with a null value are refused then.
pub proof fn law_masked_plan(
    p: ReadPlan,
    cols: Seq<ColumnView>,
    nrows: usize,
    sel: Option<RowSelector>,
    scale: bool,
    mask_null: bool,
    i: int,
)
    requires
        0 <= i < cols.len(),
        cols[i].tnull is Some,
        read_plan_of(cols, nrows, sel, scale, mask_null) is Ok,
        ({
            let (kinds, order) = read_plan_of(cols, nrows, sel, scale, mask_null)->Ok_0;
            plan_is(p, cols, kinds, order, mask_null)
        }),
    ensures
        p.masked == mask_null,
        mask_null ==> cols[i].var_kind is None,
{
    if mask_null {
        lemma_first_var_null(cols);
    }
}

proof fn lemma_first_var_null(cols: Seq<ColumnView>)
    ensures
        first_var_null(cols) is None ==> forall|i: int|
            0 <= i < cols.len() ==> !((#[trigger] cols[i]).tnull is Some && cols[i].var_kind
                is Some),
    decreases cols.len(),
{
    if cols.len() > 0 {
        let t = cols.drop_last();
        lemma_first_var_null(t);
        assert(forall|i: int| 0 <= i < t.len() ==> cols[i] == t[i]);
    }
}

/// The columns of a plan are scaled each on its own: as it asks for, where
/// scaled values are asked for, and else not at all.
pub proof fn law_plan_scaling(cols: Seq<ColumnView>, scale: bool, i: int)
    requires
        0 <= i < cols.len(),
    ensures
        plan_kinds(cols, scale) matches Ok(kinds) ==> kinds.len() == cols.len() && Some(kinds[i])
            == read_scaling(cols[i], scale),
        read_scaling(cols[i], scale) is None ==> plan_kinds(cols, scale) is Err,
    decreases cols.len(),
{
    let t = cols.drop_last();
    lemma_kinds_len(cols, scale);
    lemma_kinds_len(t, scale);
    if i < t.len() {
        law_plan_scaling(t, scale, i);
        assert(t[i] == cols[i]);
    }
}

proof fn lemma_kinds_len(cols: Seq<ColumnView>, scale: bool)
    ensures
        plan_kinds(cols, scale) matches Ok(kinds) ==> kinds.len() == cols.len(),
    decreases cols.len(),
{
    if cols.len() > 0 {
        lemma_kinds_len(cols.drop_last(), scale);
    }
}

} // verus!
