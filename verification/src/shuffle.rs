//! Moving parts of a file, and giving its rows another width, in place and in
//! pieces.

use vstd::prelude::*;

use crate::bytes::{concat, grid, lemma_concat_rows, lemma_unit_below, splice};

verus! {

/// How many bytes are worked on at a time.
pub const STRIP_TARGET_BYTES: usize = 1048576;

// Moving a part ------------------------------------------------------------

/// A part of a file that is read and written to another place.
#[derive(Clone, Copy, PartialEq, Eq, Structural, Debug)]
pub struct Move {
    pub from: u64,
    pub to: u64,
    pub len: u64,
}

/// `f` with the `len` bytes from `from` on copied to `to`.
pub open spec fn moved(f: Seq<u8>, from: int, to: int, len: int) -> Seq<u8> {
    splice(f, to, f.subrange(from, from + len))
}

/// `f` after moves, one after the other.
pub open spec fn applied(f: Seq<u8>, moves: Seq<Move>) -> Seq<u8>
    decreases moves.len(),
{
    if moves.len() == 0 {
        f
    } else {
        let m = moves.last();
        moved(applied(f, moves.drop_last()), m.from as int, m.to as int, m.len as int)
    }
}

/// Whether a file holds both places of `len` bytes.
pub open spec fn holds(f: Seq<u8>, from: int, to: int, len: int) -> bool {
    from + len <= f.len() && to + len <= f.len()
}

/// Whether no move is longer than what is worked on at a time.
pub open spec fn short_moves(moves: Seq<Move>) -> bool {
    forall|i: int|
        0 <= i < moves.len() ==> 0 < (#[trigger] moves[i]).len <= STRIP_TARGET_BYTES
}

/// Moves a part of a file towards its end, in short moves from the back. One
/// after the other they do to any file what a single move does.
pub fn relocate_region_forward(src: u64, dst: u64, total: u64) -> (r: Vec<Move>)
    requires
        src <= dst,
        dst + total <= u64::MAX,
    ensures
        short_moves(r@),
        forall|f: Seq<u8>|
            holds(f, src as int, dst as int, total as int) ==> #[trigger] applied(f, r@) == moved(
                f,
                src as int,
                dst as int,
                total as int,
            ),
{
    let mut r: Vec<Move> = Vec::new();
    if total == 0 || src == dst {
        assert forall|f: Seq<u8>| holds(
            f,
            src as int,
            dst as int,
            total as int,
        ) implies #[trigger] applied(f, r@) == moved(f, src as int, dst as int, total as int) by {
            assert(moved(f, src as int, dst as int, total as int) =~= f);
        }
        return r;
    }
    let mut remaining: u64 = total;
    proof {
        assert forall|f: Seq<u8>| holds(
            f,
            src as int,
            dst as int,
            total as int,
        ) implies #[trigger] applied(f, r@) == moved(
            f,
            src + remaining,
            dst + remaining,
            total - remaining,
        ) by {
            assert(moved(f, src + remaining, dst + remaining, total - remaining) =~= f);
        }
    }
    while remaining > 0
        invariant
            remaining <= total,
            src <= dst,
            dst + total <= u64::MAX,
            short_moves(r@),
            forall|f: Seq<u8>|
                holds(f, src as int, dst as int, total as int) ==> #[trigger] applied(f, r@)
                    == moved(f, src + remaining, dst + remaining, total - remaining),
        decreases remaining,
    {
        let n: u64 = if remaining < STRIP_TARGET_BYTES as u64 {
            remaining
        } else {
            STRIP_TARGET_BYTES as u64
        };
        let m: Move = Move { from: src + remaining - n, to: dst + remaining - n, len: n };
        let ghost was = r@;
        r.push(m);
        proof {
            assert(r@.drop_last() =~= was);
            let left = remaining - n;
            assert forall|f: Seq<u8>| holds(
                f,
                src as int,
                dst as int,
                total as int,
            ) implies #[trigger] applied(f, r@) == moved(
                f,
                src + left,
                dst + left,
                total - left,
            ) by {
                let g = applied(f, was);
                assert(g == moved(f, src + remaining, dst + remaining, total - remaining));
                assert(moved(g, m.from as int, m.to as int, m.len as int) =~= moved(
                    f,
                    src + left,
                    dst + left,
                    total - left,
                ));
            }
        }
        remaining = remaining - n;
    }
    r
}

/// Moves a part of a file towards its start, in short moves from the front. One
/// after the other they do to any file what a single move does.
pub fn relocate_region_backward(src: u64, dst: u64, total: u64) -> (r: Vec<Move>)
    requires
        dst <= src,
        src + total <= u64::MAX,
    ensures
        short_moves(r@),
        forall|f: Seq<u8>|
            holds(f, src as int, dst as int, total as int) ==> #[trigger] applied(f, r@) == moved(
                f,
                src as int,
                dst as int,
                total as int,
            ),
{
    let mut r: Vec<Move> = Vec::new();
    if total == 0 || src == dst {
        assert forall|f: Seq<u8>| holds(
            f,
            src as int,
            dst as int,
            total as int,
        ) implies #[trigger] applied(f, r@) == moved(f, src as int, dst as int, total as int) by {
            assert(moved(f, src as int, dst as int, total as int) =~= f);
        }
        return r;
    }
    let mut done: u64 = 0;
    proof {
        assert forall|f: Seq<u8>| holds(
            f,
            src as int,
            dst as int,
            total as int,
        ) implies #[trigger] applied(f, r@) == moved(f, src as int, dst as int, done as int) by {
            assert(moved(f, src as int, dst as int, done as int) =~= f);
        }
    }
    while done < total
        invariant
            done <= total,
            dst <= src,
            src + total <= u64::MAX,
            short_moves(r@),
            forall|f: Seq<u8>|
                holds(f, src as int, dst as int, total as int) ==> #[trigger] applied(f, r@)
                    == moved(f, src as int, dst as int, done as int),
        decreases total - done,
    {
        let n: u64 = if total - done < STRIP_TARGET_BYTES as u64 {
            total - done
        } else {
            STRIP_TARGET_BYTES as u64
        };
        let m: Move = Move { from: src + done, to: dst + done, len: n };
        let ghost was = r@;
        r.push(m);
        proof {
            assert(r@.drop_last() =~= was);
            assert forall|f: Seq<u8>| holds(
                f,
                src as int,
                dst as int,
                total as int,
            ) implies #[trigger] applied(f, r@) == moved(
                f,
                src as int,
                dst as int,
                done + n,
            ) by {
                let g = applied(f, was);
                assert(g == moved(f, src as int, dst as int, done as int));
                assert(moved(g, m.from as int, m.to as int, m.len as int) =~= moved(
                    f,
                    src as int,
                    dst as int,
                    done + n,
                ));
            }
        }
        done = done + n;
    }
    r
}

// Rows of another width ----------------------------------------------------

/// Rows that are worked on together.
#[derive(Clone, Copy, PartialEq, Eq, Structural, Debug)]
pub struct RowStrip {
    pub first: usize,
    pub rows: usize,
}

/// How many of `nrows` rows of `width` bytes are worked on together: as many as
/// about a mebibyte holds, but at least one.
pub open spec fn strip_rows(nrows: usize, width: usize) -> usize {
    let per: int = if width == 0 {
        1048576
    } else if width > 1048576 {
        1
    } else {
        1048576int / (width as int)
    };
    if per < nrows {
        per as usize
    } else {
        nrows
    }
}

/// How many rows are worked on together.
pub fn rows_per_strip(nrows: usize, width: usize) -> (r: usize)
    ensures
        r == strip_rows(nrows, width),
        nrows > 0 ==> r > 0,
        r <= nrows,
{
    let per: usize = if width == 0 {
        STRIP_TARGET_BYTES
    } else if width > STRIP_TARGET_BYTES {
        1
    } else {
        proof {
            assert(1048576int / (width as int) >= 1) by (nonlinear_arith)
                requires
                    1 <= width <= 1048576,
            ;
        }
        STRIP_TARGET_BYTES / width
    };
    if per < nrows {
        per
    } else {
        nrows
    }
}

/// The strips of the first `n` rows, `per` rows each, from the back.
pub open spec fn back_strips(n: nat, per: nat) -> Seq<RowStrip>
    decreases n,
{
    if n == 0 || per == 0 {
        Seq::empty()
    } else {
        let c = if n < per {
            n
        } else {
            per
        };
        seq![RowStrip { first: (n - c) as usize, rows: c as usize }] + back_strips(
            (n - c) as nat,
            per,
        )
    }
}

/// The strips of the rows from `a` to `n`, `per` rows each, from the front.
pub open spec fn front_strips(a: nat, n: nat, per: nat) -> Seq<RowStrip>
    decreases n - a,
{
    if n <= a || per == 0 {
        Seq::empty()
    } else {
        let c = if n - a < per {
            (n - a) as nat
        } else {
            per
        };
        seq![RowStrip { first: a as usize, rows: c as usize }] + front_strips(a + c, n, per)
    }
}

/// Cuts rows into strips from the back, as wider rows are written. `width` is
/// the width that they get.
pub fn strips_from_back(nrows: usize, width: usize) -> (r: Vec<RowStrip>)
    ensures
        r@ == back_strips(nrows as nat, strip_rows(nrows, width) as nat),
{
    let per: usize = rows_per_strip(nrows, width);
    let mut r: Vec<RowStrip> = Vec::new();
    let mut end: usize = nrows;
    assert(r@ + back_strips(nrows as nat, per as nat) =~= back_strips(nrows as nat, per as nat));
    while end > 0
        invariant
            end <= nrows,
            nrows > 0 ==> per > 0,
            per == strip_rows(nrows, width),
            r@ + back_strips(end as nat, per as nat) == back_strips(nrows as nat, per as nat),
        decreases end,
    {
        let c: usize = if end < per {
            end
        } else {
            per
        };
        let ghost was = r@;
        let s: RowStrip = RowStrip { first: end - c, rows: c };
        r.push(s);
        proof {
            let rest = back_strips((end - c) as nat, per as nat);
            assert(was.push(s) + rest =~= was + (seq![s] + rest));
        }
        end = end - c;
    }
    assert(r@ + back_strips(0, per as nat) =~= r@);
    r
}

/// Cuts rows into strips from the front, as narrower rows are written. `width`
/// is the width that they have.
pub fn strips_from_front(nrows: usize, width: usize) -> (r: Vec<RowStrip>)
    ensures
        r@ == front_strips(0, nrows as nat, strip_rows(nrows, width) as nat),
{
    let per: usize = rows_per_strip(nrows, width);
    let mut r: Vec<RowStrip> = Vec::new();
    let mut a: usize = 0;
    assert(r@ + front_strips(0, nrows as nat, per as nat) =~= front_strips(
        0,
        nrows as nat,
        per as nat,
    ));
    while a < nrows
        invariant
            a <= nrows,
            nrows > 0 ==> per > 0,
            per == strip_rows(nrows, width),
            r@ + front_strips(a as nat, nrows as nat, per as nat) == front_strips(
                0,
                nrows as nat,
                per as nat,
            ),
        decreases nrows - a,
    {
        let c: usize = if nrows - a < per {
            nrows - a
        } else {
            per
        };
        let ghost was = r@;
        let s: RowStrip = RowStrip { first: a, rows: c };
        r.push(s);
        proof {
            let rest = front_strips((a + c) as nat, nrows as nat, per as nat);
            assert(was.push(s) + rest =~= was + (seq![s] + rest));
        }
        a = a + c;
    }
    assert(r@ + front_strips(nrows as nat, nrows as nat, per as nat) =~= r@);
    r
}

/// Row `r` of the rows of `w` bytes at `data`.
pub open spec fn row_of(f: Seq<u8>, data: int, w: int, r: int) -> Seq<u8> {
    f.subrange(data + r * w, data + r * w + w)
}

/// The rows of a strip as they are to be: `t` gives the new row for a number
/// and an old row.
pub open spec fn strip_out(
    f: Seq<u8>,
    data: int,
    ow: int,
    s: RowStrip,
    t: spec_fn(int, Seq<u8>) -> Seq<u8>,
) -> Seq<u8> {
    concat(Seq::new(s.rows as nat, |r: int| t(s.first + r, row_of(f, data, ow, s.first + r))))
}

/// `f` after the rows of strips have been read at one width and written at
/// another, strip by strip.
pub open spec fn shuffled(
    f: Seq<u8>,
    data: int,
    ow: int,
    nw: int,
    strips: Seq<RowStrip>,
    t: spec_fn(int, Seq<u8>) -> Seq<u8>,
) -> Seq<u8>
    decreases strips.len(),
{
    if strips.len() == 0 {
        f
    } else {
        let s = strips[0];
        shuffled(
            splice(f, data + s.first * nw, strip_out(f, data, ow, s, t)),
            data,
            ow,
            nw,
            strips.drop_first(),
            t,
        )
    }
}

/// Whether `g` has, in the place of rows `a` to `n`, the new rows for those of
/// `f`, and is the same outside of them.
pub open spec fn reshaped(
    f: Seq<u8>,
    g: Seq<u8>,
    data: int,
    ow: int,
    nw: int,
    a: int,
    n: int,
    t: spec_fn(int, Seq<u8>) -> Seq<u8>,
) -> bool {
    &&& g.len() == f.len()
    &&& forall|r: int|
        a <= r < n ==> #[trigger] row_of(g, data, nw, r) == t(r, row_of(f, data, ow, r))
    &&& forall|i: int|
        0 <= i < f.len() && !(data + a * nw <= i < data + n * nw) ==> #[trigger] g[i] == f[i]
}

proof fn lemma_strip_step(
    f: Seq<u8>,
    data: int,
    ow: int,
    nw: int,
    s: RowStrip,
    t: spec_fn(int, Seq<u8>) -> Seq<u8>,
)
    requires
        0 <= data,
        0 <= ow,
        0 <= nw,
        forall|r: int, row: Seq<u8>| row.len() == ow ==> (#[trigger] t(r, row)).len() == nw,
        data + (s.first + s.rows) * ow <= f.len(),
        data + (s.first + s.rows) * nw <= f.len(),
    ensures
        reshaped(
            f,
            splice(f, data + s.first * nw, strip_out(f, data, ow, s, t)),
            data,
            ow,
            nw,
            s.first as int,
            s.first + s.rows,
            t,
        ),
{
    let a = s.first as int;
    let n = s.first + s.rows;
    let p = Seq::new(s.rows as nat, |r: int| t(a + r, row_of(f, data, ow, a + r)));
    let out = strip_out(f, data, ow, s, t);
    let g = splice(f, data + a * nw, out);
    assert forall|r: int| 0 <= r < p.len() implies (#[trigger] p[r]).len() == nw by {
        lemma_unit_below(a + r, n, ow);
        assert(row_of(f, data, ow, a + r).len() == ow);
    }
    lemma_concat_rows(p, nw);
    assert(n * nw == a * nw + s.rows * nw) by (nonlinear_arith)
        requires
            n == a + s.rows,
    ;
    assert(0 <= a * nw && 0 <= s.rows * nw) by (nonlinear_arith)
        requires
            0 <= a,
            0 <= nw,
            0 <= s.rows,
    ;
    assert(out.len() == s.rows * nw);
    assert forall|r: int| a <= r < n implies #[trigger] row_of(g, data, nw, r) == t(
        r,
        row_of(f, data, ow, r),
    ) by {
        let k = r - a;
        assert(p[k] == t(r, row_of(f, data, ow, r)));
        assert(r * nw == a * nw + k * nw) by (nonlinear_arith)
            requires
                r == a + k,
        ;
        lemma_unit_below(k, s.rows as int, nw);
        assert forall|y: int| 0 <= y < nw implies row_of(g, data, nw, r)[y] == p[k][y] by {
            assert(grid(out, nw, k, y) == p[k][y]);
        }
        assert(row_of(g, data, nw, r) =~= p[k]);
    }
}

/// Rows that get wider, strip by strip from the back, come out right, though
/// each strip is written over places where rows were.
pub proof fn law_widen_in_place(
    f: Seq<u8>,
    data: int,
    ow: int,
    nw: int,
    n: nat,
    per: nat,
    t: spec_fn(int, Seq<u8>) -> Seq<u8>,
)
    requires
        0 <= data,
        0 <= ow <= nw,
        n <= usize::MAX,
        per > 0,
        forall|r: int, row: Seq<u8>| row.len() == ow ==> (#[trigger] t(r, row)).len() == nw,
        data + n * nw <= f.len(),
    ensures
        reshaped(
            f,
            shuffled(f, data, ow, nw, back_strips(n, per), t),
            data,
            ow,
            nw,
            0,
            n as int,
            t,
        ),
    decreases n,
{
    let strips = back_strips(n, per);
    if n > 0 {
        let s = strips[0];
        let m = s.first as int;
        let rest = back_strips(m as nat, per);
        assert(strips.drop_first() =~= rest);
        assert(n * ow <= n * nw) by (nonlinear_arith)
            requires
                ow <= nw,
                0 <= n,
        ;
        assert(s.first + s.rows == n);
        lemma_strip_step(f, data, ow, nw, s, t);
        let g = splice(f, data + m * nw, strip_out(f, data, ow, s, t));
        let h = shuffled(f, data, ow, nw, strips, t);
        assert(h == shuffled(g, data, ow, nw, rest, t));
        assert(m * nw <= n * nw) by (nonlinear_arith)
            requires
                0 <= m <= n,
                0 <= nw,
        ;
        law_widen_in_place(g, data, ow, nw, m as nat, per, t);
        assert forall|r: int| 0 <= r < n implies #[trigger] row_of(h, data, nw, r) == t(
            r,
            row_of(f, data, ow, r),
        ) by {
            if r < m {
                lemma_unit_below(r, m, ow);
                assert(m * ow <= m * nw) by (nonlinear_arith)
                    requires
                        ow <= nw,
                        0 <= m,
                ;
                assert(row_of(g, data, ow, r) =~= row_of(f, data, ow, r));
                assert(row_of(h, data, nw, r) == t(r, row_of(g, data, ow, r)));
            } else {
                lemma_unit_below(r, n as int, nw);
                assert(m * nw <= r * nw) by (nonlinear_arith)
                    requires
                        0 <= m <= r,
                        0 <= nw,
                ;
                assert(row_of(h, data, nw, r) =~= row_of(g, data, nw, r));
                assert(row_of(g, data, nw, r) == t(r, row_of(f, data, ow, r)));
            }
        }
        assert(0 * nw == 0) by (nonlinear_arith);
        assert(0 <= m * nw) by (nonlinear_arith)
            requires
                0 <= m,
                0 <= nw,
        ;
        assert forall|i: int|
            0 <= i < f.len() && !(data + 0 * nw <= i < data + n * nw) implies #[trigger] h[i]
            == f[i] by {
            assert(h[i] == g[i]);
            assert(g[i] == f[i]);
        }
    }
}

/// Rows that get narrower, strip by strip from the front, come out right,
/// though each strip is written over places where rows were.
pub proof fn law_narrow_in_place(
    f: Seq<u8>,
    data: int,
    ow: int,
    nw: int,
    a: nat,
    n: nat,
    per: nat,
    t: spec_fn(int, Seq<u8>) -> Seq<u8>,
)
    requires
        0 <= data,
        0 <= nw <= ow,
        a <= n <= usize::MAX,
        per > 0,
        forall|r: int, row: Seq<u8>| row.len() == ow ==> (#[trigger] t(r, row)).len() == nw,
        data + n * ow <= f.len(),
    ensures
        reshaped(
            f,
            shuffled(f, data, ow, nw, front_strips(a, n, per), t),
            data,
            ow,
            nw,
            a as int,
            n as int,
            t,
        ),
    decreases n - a,
{
    let strips = front_strips(a, n, per);
    if a < n {
        let s = strips[0];
        let m = a + s.rows;
        let rest = front_strips(m as nat, n, per);
        assert(strips.drop_first() =~= rest);
        assert(m * ow <= n * ow && n * nw <= n * ow && m * nw <= n * nw && a * nw <= m * nw && m
            * nw <= m * ow) by (nonlinear_arith)
            requires
                0 <= nw <= ow,
                0 <= a <= m <= n,
        ;
        lemma_strip_step(f, data, ow, nw, s, t);
        let g = splice(f, data + s.first * nw, strip_out(f, data, ow, s, t));
        let h = shuffled(f, data, ow, nw, strips, t);
        assert(h == shuffled(g, data, ow, nw, rest, t));
        law_narrow_in_place(g, data, ow, nw, m as nat, n, per, t);
        assert forall|r: int| a <= r < n implies #[trigger] row_of(h, data, nw, r) == t(
            r,
            row_of(f, data, ow, r),
        ) by {
            if r < m {
                lemma_unit_below(r, m as int, nw);
                assert(row_of(h, data, nw, r) =~= row_of(g, data, nw, r));
                assert(row_of(g, data, nw, r) == t(r, row_of(f, data, ow, r)));
            } else {
                lemma_unit_below(r, n as int, ow);
                assert(m * ow <= r * ow) by (nonlinear_arith)
                    requires
                        0 <= m <= r,
                        0 <= ow,
                ;
                assert(row_of(g, data, ow, r) =~= row_of(f, data, ow, r));
                assert(row_of(h, data, nw, r) == t(r, row_of(g, data, ow, r)));
            }
        }
        assert forall|i: int|
            0 <= i < f.len() && !(data + a * nw <= i < data + n * nw) implies #[trigger] h[i]
            == f[i] by {
            assert(h[i] == g[i]);
            assert(g[i] == f[i]);
        }
    }
}

} // verus!
