//! Which stretches of the file hold the selected rows, in pieces that fit in
//! memory, and how rows are handed out one after the other.

use vstd::prelude::*;

use crate::error::RowError;
use crate::rows::{
    RowSelector, law_selected_rows, pair_le, pairs_sorted, resolve_rows, selected_rows, slice_rows,
    sort_pairs, without_repeats,
};

verus! {

/// A stretch of rows that follow each other in the file. Row `i` of the stretch
/// goes to place `output[i]` of the result.
#[derive(Debug)]
pub struct RunPlan {
    pub start: usize,
    pub len: usize,
    pub output: Vec<usize>,
}

/// The rows of a run, each with its place in the result.
pub open spec fn run_pairs(r: RunPlan) -> Seq<(i64, usize)> {
    Seq::new(r.len as nat, |i: int| ((r.start + i) as i64, r.output@[i]))
}

/// The rows of all runs, each with its place in the result.
pub open spec fn all_pairs(runs: Seq<RunPlan>) -> Seq<(i64, usize)>
    decreases runs.len(),
{
    if runs.len() == 0 {
        Seq::empty()
    } else {
        all_pairs(runs.drop_last()) + run_pairs(runs.last())
    }
}

/// Every row of an order with its place in it.
pub open spec fn placed(order: Seq<usize>) -> Seq<(i64, usize)> {
    Seq::new(order.len(), |i: int| (order[i] as i64, i as usize))
}

/// Whether runs hold the rows of an order: together the same rows with the same
/// places, by ascending row, in stretches that are as long as possible.
pub open spec fn runs_hold(runs: Seq<RunPlan>, order: Seq<usize>) -> bool {
    &&& forall|k: int|
        0 <= k < runs.len() ==> (#[trigger] runs[k]).len > 0 && runs[k].output@.len() == runs[k].len
            && runs[k].start + runs[k].len <= i64::MAX && runs[k].start + runs[k].len <= usize::MAX
    &&& forall|k: int, m: int|
        0 <= k < m < runs.len() ==> (#[trigger] runs[k]).start + runs[k].len < (
        #[trigger] runs[m]).start
    &&& all_pairs(runs).to_multiset() == placed(order).to_multiset()
    &&& all_pairs(runs).len() == order.len()
    &&& pairs_sorted(all_pairs(runs))
}

/// The order of a selection; without one, all rows as they stand.
pub open spec fn read_order(sel: Option<RowSelector>, nrows: usize) -> Result<
    Seq<usize>,
    RowError,
> {
    match sel {
        None => Ok(Seq::new(nrows as nat, |i: int| i as usize)),
        Some(s) => selected_rows(s, nrows),
    }
}

/// The slice of all rows is the same as no selection, whatever their number.
pub proof fn law_whole_slice(nrows: usize)
    requires
        nrows <= i64::MAX,
    ensures
        read_order(
            Some(RowSelector::Slice { start: 0, stop: nrows as i64, step: 1 }),
            nrows,
        ) == read_order(None, nrows),
{
    let s = slice_rows(0, nrows as int, 1, nrows as int);
    let all = Seq::new(nrows as nat, |i: int| i as usize);
    lemma_slice_of_run(0, nrows as int, nrows);
    assert(s =~= all);
    lemma_kept(s);
}

/// The slice of rows that follow each other gives these rows as they stand.
pub proof fn law_slice_of_run(lo: usize, hi: usize, nrows: usize)
    requires
        lo < hi <= nrows <= i64::MAX,
    ensures
        read_order(
            Some(RowSelector::Slice { start: lo as i64, stop: hi as i64, step: 1 }),
            nrows,
        ) == Ok::<Seq<usize>, RowError>(Seq::new((hi - lo) as nat, |i: int| (lo + i) as usize)),
{
    let s = slice_rows(lo as int, hi as int, 1, nrows as int);
    lemma_slice_of_run(lo as int, hi as int, nrows);
    assert(s =~= Seq::new((hi - lo) as nat, |i: int| (lo + i) as usize));
    lemma_kept(s);
}

proof fn lemma_slice_of_run(i: int, stop: int, nrows: usize)
    requires
        0 <= i <= stop <= nrows,
    ensures
        ({
            let s = slice_rows(i, stop, 1, nrows as int);
            &&& s.len() == stop - i
            &&& forall|k: int| 0 <= k < s.len() ==> #[trigger] s[k] == i + k
        }),
    decreases stop - i,
{
    if i < stop {
        lemma_slice_of_run(i + 1, stop, nrows);
        let t = slice_rows(i + 1, stop, 1, nrows as int);
        let s = slice_rows(i, stop, 1, nrows as int);
        assert(s == seq![i as usize] + t);
        assert forall|k: int| 0 <= k < s.len() implies #[trigger] s[k] == i + k by {
            if k > 0 {
                assert(s[k] == t[k - 1]);
            }
        }
    }
}

/// Rows of which none is there twice are kept.
pub proof fn lemma_kept(s: Seq<usize>)
    requires
        forall|i: int, j: int| 0 <= i < j < s.len() ==> s[i] != s[j],
    ensures
        without_repeats(s) == s,
    decreases s.len(),
{
    if s.len() > 0 {
        let p = s.drop_last();
        lemma_kept(p);
        assert(!p.contains(s.last()));
        assert(p.push(s.last()) =~= s);
    }
}

/// Whether a place is among those of the pairs.
pub open spec fn has_place(p: Seq<(i64, usize)>, j: int) -> bool {
    exists|t: int| 0 <= t < p.len() && (#[trigger] p[t]).1 == j
}

/// In the runs of an order every row has the place that the order gives it,
/// and every place of the order is there.
pub proof fn lemma_runs_places(runs: Seq<RunPlan>, order: Seq<usize>)
    requires
        runs_hold(runs, order),
        forall|i: int| 0 <= i < order.len() ==> order[i] <= i64::MAX,
        order.len() <= usize::MAX,
    ensures
        ({
            let p = all_pairs(runs);
            &&& forall|t: int|
                0 <= t < p.len() ==> 0 <= (#[trigger] p[t]).1 < order.len() && order[p[t].1 as int]
                    == p[t].0
            &&& forall|j: int|
                0 <= j < order.len() ==> #[trigger] has_place(p, j)
        }),
{
    let p = all_pairs(runs);
    let q = placed(order);
    p.to_multiset_ensures();
    q.to_multiset_ensures();
    assert forall|t: int| 0 <= t < p.len() implies 0 <= (#[trigger] p[t]).1 < order.len()
        && order[p[t].1 as int] == p[t].0 by {
        assert(p.contains(p[t]));
        assert(p.to_multiset().contains(p[t]));
        assert(q.to_multiset().contains(p[t]));
        assert(q.contains(p[t]));
    }
    assert forall|j: int| 0 <= j < order.len() implies #[trigger] has_place(p, j) by {
        assert(q.contains(q[j]));
        assert(q.to_multiset().contains(q[j]));
        assert(p.to_multiset().contains(q[j]));
        assert(p.contains(q[j]));
        let t = choose|t: int| 0 <= t < p.len() && p[t] == q[j];
        assert(p[t].1 == j);
    }
}

/// No two pairs of the runs of an order have the same place.
pub proof fn lemma_runs_distinct(runs: Seq<RunPlan>, order: Seq<usize>)
    requires
        runs_hold(runs, order),
        order.no_duplicates(),
        forall|i: int| 0 <= i < order.len() ==> order[i] <= i64::MAX,
        order.len() <= usize::MAX,
    ensures
        ({
            let p = all_pairs(runs);
            forall|t: int, u: int|
                0 <= t < u < p.len() ==> (#[trigger] p[t]).1 != (#[trigger] p[u]).1 && p[t].0
                    < p[u].0
        }),
{
    let p = all_pairs(runs);
    let q = placed(order);
    lemma_runs_places(runs, order);
    q.to_multiset_ensures();
    assert(q.no_duplicates());
    q.lemma_multiset_has_no_duplicates();
    assert forall|t: int, u: int| 0 <= t < u < p.len() implies (#[trigger] p[t]).1 != (
    #[trigger] p[u]).1 && p[t].0 < p[u].0 by {
        if p[t].1 == p[u].1 {
            assert(p[t] == p[u]);
            lemma_twice(p, t, u);
            assert(p.to_multiset().count(p[t]) >= 2);
            assert(p.to_multiset().contains(p[t]));
        }
        assert(pair_le(p[t], p[u]));
        if p[t].0 == p[u].0 {
            assert(order[p[t].1 as int] == order[p[u].1 as int]);
        }
    }
}

proof fn lemma_twice(p: Seq<(i64, usize)>, t: int, u: int)
    requires
        0 <= t < u < p.len(),
        p[t] == p[u],
    ensures
        p.to_multiset().count(p[t]) >= 2,
{
    let a = p.take(u);
    let b = p.skip(u);
    assert(a + b =~= p);
    a.to_multiset_ensures();
    b.to_multiset_ensures();
    vstd::seq_lib::lemma_multiset_commutative(a, b);
    assert(a[t] == p[t]);
    assert(b[0] == p[t]);
    assert(a.contains(p[t]));
    assert(b.contains(p[t]));
}

fn place_rows(rows: &Vec<usize>) -> (r: Vec<(i64, usize)>)
    requires
        forall|i: int| 0 <= i < rows@.len() ==> rows@[i] <= i64::MAX,
    ensures
        r@ == placed(rows@),
{
    let n: usize = rows.len();
    let mut r: Vec<(i64, usize)> = Vec::new();
    let mut i: usize = 0;
    while i < n
        invariant
            i <= n == rows@.len(),
            forall|k: int| 0 <= k < rows@.len() ==> rows@[k] <= i64::MAX,
            r@ == placed(rows@).take(i as int),
        decreases n - i,
    {
        r.push((rows[i] as i64, i));
        i = i + 1;
        assert(r@ =~= placed(rows@).take(i as int));
    }
    assert(r@ =~= placed(rows@));
    r
}

/// Groups sorted pairs into stretches of consecutive rows.
fn coalesce(p: &Vec<(i64, usize)>) -> (runs: Vec<RunPlan>)
    requires
        forall|i: int| 0 <= i < p@.len() ==> 0 <= (#[trigger] p@[i]).0 < i64::MAX && p@[i].0
            < usize::MAX,
        forall|i: int, j: int|
            0 <= i < j < p@.len() ==> (#[trigger] p@[i]).0 < (#[trigger] p@[j]).0,
    ensures
        all_pairs(runs@) == p@,
        forall|k: int|
            0 <= k < runs@.len() ==> (#[trigger] runs@[k]).len > 0 && runs@[k].output@.len()
                == runs@[k].len && runs@[k].start + runs@[k].len <= i64::MAX
                && runs@[k].start + runs@[k].len <= usize::MAX,
        forall|k: int, m: int|
            0 <= k < m < runs@.len() ==> (#[trigger] runs@[k]).start + runs@[k].len < (
            #[trigger] runs@[m]).start,
{
    let n: usize = p.len();
    let mut runs: Vec<RunPlan> = Vec::new();
    let mut i: usize = 0;
    assert(all_pairs(runs@) =~= p@.take(0));
    while i < n
        invariant
            i <= n == p@.len(),
            forall|k: int| 0 <= k < p@.len() ==> 0 <= (#[trigger] p@[k]).0 < i64::MAX && p@[k].0
                < usize::MAX,
            forall|k: int, m: int|
                0 <= k < m < p@.len() ==> (#[trigger] p@[k]).0 < (#[trigger] p@[m]).0,
            all_pairs(runs@) == p@.take(i as int),
            forall|k: int|
                0 <= k < runs@.len() ==> (#[trigger] runs@[k]).len > 0 && runs@[k].output@.len()
                    == runs@[k].len && runs@[k].start + runs@[k].len <= i64::MAX
                && runs@[k].start + runs@[k].len <= usize::MAX,
            forall|k: int, m: int|
                0 <= k < m < runs@.len() ==> (#[trigger] runs@[k]).start + runs@[k].len < (
                #[trigger] runs@[m]).start,
            forall|k: int|
                0 <= k < runs@.len() && i < n ==> (#[trigger] runs@[k]).start + runs@[k].len
                    < p@[i as int].0,
        decreases n - i,
    {
        let first: i64 = p[i].0;
        let start: usize = first as usize;
        let mut output: Vec<usize> = vec![p[i].1];
        let mut j: usize = i + 1;
        while j < n && p[j].0 == p[j - 1].0 + 1
            invariant
                i < j <= n == p@.len(),
                forall|k: int| 0 <= k < p@.len() ==> 0 <= (#[trigger] p@[k]).0 < i64::MAX && p@[k].0
                    < usize::MAX,
                output@.len() == j - i,
                first == p@[i as int].0,
                forall|k: int| i <= k < j ==> (#[trigger] p@[k]).0 == first + (k - i),
                forall|k: int| i <= k < j ==> output@[k - i] == (#[trigger] p@[k]).1,
            decreases n - j,
        {
            output.push(p[j].1);
            j = j + 1;
        }
        let len: usize = j - i;
        let ghost before = runs@;
        let run: RunPlan = RunPlan { start, len, output };
        proof {
            assert(p@[j - 1].0 == first + (len - 1));
            assert(run_pairs(run) =~= p@.subrange(i as int, j as int));
            assert(p@.take(i as int) + p@.subrange(i as int, j as int) =~= p@.take(j as int));
        }
        runs.push(run);
        proof {
            assert(runs@.drop_last() =~= before);
            assert(all_pairs(runs@) =~= p@.take(j as int));
            if j < n {
                assert(p@[j - 1].0 < p@[j as int].0);
                assert(p@[i as int].0 < p@[j as int].0);
            }
        }
        i = j;
    }
    assert(p@.take(n as int) =~= p@);
    runs
}

/// Plans which rows to read: their number and the stretches of the file that
/// hold them.
pub fn plan_runs(sel: &Option<RowSelector>, nrows: usize) -> (r: Result<
    (usize, Vec<RunPlan>),
    RowError,
>)
    requires
        nrows <= i64::MAX,
    ensures
        match r {
            Ok((n, runs)) => read_order(*sel, nrows) matches Ok(order) && n == order.len()
                && runs_hold(runs@, order),
            Err(e) => read_order(*sel, nrows) == Err::<Seq<usize>, RowError>(e),
        },
{
    match sel {
        None => {
            let mut output: Vec<usize> = Vec::new();
            let mut i: usize = 0;
            while i < nrows
                invariant
                    i <= nrows,
                    output@ == Seq::new(i as nat, |k: int| k as usize),
                decreases nrows - i,
            {
                output.push(i);
                i = i + 1;
                assert(output@ =~= Seq::new(i as nat, |k: int| k as usize));
            }
            let ghost order = Seq::new(nrows as nat, |k: int| k as usize);
            let mut runs: Vec<RunPlan> = Vec::new();
            if nrows > 0 {
                runs.push(RunPlan { start: 0, len: nrows, output });
            }
            proof {
                reveal_with_fuel(all_pairs, 2);
                if nrows > 0 {
                    assert(runs@.drop_last() =~= Seq::empty());
                }
                assert(all_pairs(runs@) =~= placed(order));
            }
            Ok((nrows, runs))
        },
        Some(s) => {
            let order: Vec<usize> = match resolve_rows(s, nrows) {
                Ok(v) => v,
                Err(e) => {
                    return Err(e);
                },
            };
            proof {
                law_selected_rows(*s, nrows);
            }
            let n: usize = order.len();
            let pairs: Vec<(i64, usize)> = place_rows(&order);
            let sorted: Vec<(i64, usize)> = sort_pairs(&pairs);
            proof {
                assert(order@.len() == n);
                lemma_sorted_places(sorted@, order@, nrows);
            }
            let runs: Vec<RunPlan> = coalesce(&sorted);
            Ok((n, runs))
        },
    }
}

/// The pairs of distinct rows, once sorted, ascend strictly.
proof fn lemma_sorted_places(p: Seq<(i64, usize)>, order: Seq<usize>, nrows: usize)
    requires
        pairs_sorted(p),
        p.to_multiset() == placed(order).to_multiset(),
        order.no_duplicates(),
        nrows <= i64::MAX,
        order.len() <= usize::MAX,
        forall|i: int| 0 <= i < order.len() ==> order[i] < nrows,
    ensures
        forall|i: int| 0 <= i < p.len() ==> 0 <= (#[trigger] p[i]).0 < i64::MAX && p[i].0
            < usize::MAX,
        forall|i: int, j: int| 0 <= i < j < p.len() ==> (#[trigger] p[i]).0 < (#[trigger] p[j]).0,
{
    let q = placed(order);
    p.to_multiset_ensures();
    q.to_multiset_ensures();
    assert(q.no_duplicates());
    q.lemma_multiset_has_no_duplicates();
    assert forall|i: int| 0 <= i < p.len() implies 0 <= (#[trigger] p[i]).0 < i64::MAX && p[i].0
        < usize::MAX && p[i].1 < order.len() && p[i].0 == order[p[i].1 as int] by {
        assert(p.contains(p[i]));
        assert(p.to_multiset().contains(p[i]));
        assert(q.to_multiset().contains(p[i]));
        assert(q.contains(p[i]));
    }
    assert forall|i: int, j: int| 0 <= i < j < p.len() implies (#[trigger] p[i]).0 < (
    #[trigger] p[j]).0 by {
        assert(pair_le(p[i], p[j]));
        if p[i].0 == p[j].0 {
            if p[i].1 == p[j].1 {
                lemma_twice(p, i, j);
            } else {
                assert(order[p[i].1 as int] == order[p[j].1 as int]);
            }
        }
    }
}

// Pieces of runs -----------------------------------------------------------

/// The bytes that a piece of a read aims at.
pub const READ_CHUNK_TARGET_BYTES: usize = 0x10_0000;

/// A piece of a run: the `rows` rows of run `run` from its row `local` on,
/// which stand in the file from row `start` on. The first of them is number
/// `first` among the rows of all runs.
#[derive(Clone, Copy, PartialEq, Eq, Structural, Debug)]
pub struct Chunk {
    pub first: usize,
    pub run: usize,
    pub local: usize,
    pub start: usize,
    pub rows: usize,
}

/// Whether a piece is one of the given runs.
pub open spec fn chunk_in(c: Chunk, runs: Seq<RunPlan>) -> bool {
    &&& c.run < runs.len()
    &&& c.local + c.rows <= runs[c.run as int].len
    &&& c.start == runs[c.run as int].start + c.local
    &&& c.first == all_pairs(runs.take(c.run as int)).len() + c.local
}

/// The rows of a piece with their places in the result.
pub open spec fn chunk_pairs(c: Chunk, runs: Seq<RunPlan>) -> Seq<(i64, usize)> {
    run_pairs(runs[c.run as int]).subrange(c.local as int, c.local + c.rows)
}

/// The rows of a piece: about as many as fit the target, at least one.
pub open spec fn rows_per_piece(row_width: usize) -> usize {
    let w = if row_width > 1 {
        row_width
    } else {
        1
    };
    if READ_CHUNK_TARGET_BYTES / w > 1 {
        (READ_CHUNK_TARGET_BYTES / w) as usize
    } else {
        1
    }
}

/// The rows of a piece.
pub fn rows_per_chunk(row_width: usize) -> (r: usize)
    ensures
        r == rows_per_piece(row_width),
        r > 0,
{
    let w: usize = if row_width > 1 {
        row_width
    } else {
        1
    };
    let k: usize = READ_CHUNK_TARGET_BYTES / w;
    if k > 1 {
        k
    } else {
        1
    }
}

/// The rows of all pieces up to number `k`.
pub open spec fn chunk_rows(c: Seq<Chunk>, k: int) -> int
    decreases k,
{
    if k <= 0 {
        0
    } else {
        chunk_rows(c, k - 1) + c[k - 1].rows
    }
}

/// Whether pieces cover the rows of the runs, one after the other.
pub open spec fn chunks_cover(c: Seq<Chunk>, runs: Seq<RunPlan>, per: usize) -> bool {
    &&& forall|k: int|
        0 <= k < c.len() ==> 0 < (#[trigger] c[k]).rows <= per && c[k].first == chunk_rows(c, k)
            && chunk_in(c[k], runs)
    &&& chunk_rows(c, c.len() as int) == all_pairs(runs).len()
}

/// The rows of a run stand behind those of the runs before it.
pub proof fn lemma_run_at(runs: Seq<RunPlan>, k: int)
    requires
        0 <= k < runs.len(),
    ensures
        all_pairs(runs.take(k)).len() + runs[k].len <= all_pairs(runs).len(),
        forall|i: int|
            0 <= i < runs[k].len ==> all_pairs(runs)[all_pairs(runs.take(k)).len() + i]
                == #[trigger] run_pairs(runs[k])[i],
{
    let a = all_pairs(runs.take(k));
    let b = all_pairs(runs.take(k + 1));
    lemma_all_pairs_take(runs, k);
    lemma_all_pairs_prefix(runs, k + 1);
    assert forall|i: int| 0 <= i < runs[k].len implies all_pairs(runs)[a.len() + i]
        == #[trigger] run_pairs(runs[k])[i] by {
        assert(b[a.len() + i] == run_pairs(runs[k])[i]);
    }
}

/// The rows of a piece are those of the runs from its first one on.
pub proof fn law_chunk_pairs(c: Chunk, runs: Seq<RunPlan>)
    requires
        chunk_in(c, runs),
    ensures
        c.first + c.rows <= all_pairs(runs).len(),
        chunk_pairs(c, runs) == all_pairs(runs).subrange(c.first as int, c.first + c.rows),
{
    let k = c.run as int;
    let a = all_pairs(runs.take(k));
    let b = all_pairs(runs.take(k + 1));
    lemma_all_pairs_take(runs, k);
    lemma_all_pairs_prefix(runs, k + 1);
    let p = all_pairs(runs);
    assert(b.len() == a.len() + runs[k].len);
    assert forall|i: int| 0 <= i < c.rows implies p[c.first + i] == chunk_pairs(c, runs)[i] by {
        assert(b[c.first + i] == run_pairs(runs[k])[c.local + i]);
    }
    assert(chunk_pairs(c, runs) =~= p.subrange(c.first as int, c.first + c.rows));
}

proof fn lemma_chunk_rows_prefix(a: Seq<Chunk>, b: Seq<Chunk>, k: int)
    requires
        k <= a.len(),
        k <= b.len(),
        forall|i: int| 0 <= i < k ==> a[i] == b[i],
    ensures
        chunk_rows(a, k) == chunk_rows(b, k),
    decreases k,
{
    if k > 0 {
        lemma_chunk_rows_prefix(a, b, k - 1);
    }
}

proof fn lemma_all_pairs_take(runs: Seq<RunPlan>, k: int)
    requires
        0 <= k < runs.len(),
    ensures
        all_pairs(runs.take(k + 1)) == all_pairs(runs.take(k)) + run_pairs(runs[k]),
{
    assert(runs.take(k + 1).drop_last() =~= runs.take(k));
}

proof fn lemma_all_pairs_prefix(runs: Seq<RunPlan>, k: int)
    requires
        0 <= k <= runs.len(),
    ensures
        all_pairs(runs.take(k)).len() <= all_pairs(runs).len(),
        forall|t: int|
            0 <= t < all_pairs(runs.take(k)).len() ==> all_pairs(runs)[t] == all_pairs(
                runs.take(k),
            )[t],
    decreases runs.len() - k,
{
    if k < runs.len() {
        lemma_all_pairs_take(runs, k);
        lemma_all_pairs_prefix(runs, k + 1);
        let a = all_pairs(runs.take(k));
        let b = all_pairs(runs.take(k + 1));
        assert(forall|t: int| 0 <= t < a.len() ==> b[t] == a[t]);
    } else {
        assert(runs.take(k) =~= runs);
    }
}

/// Cuts runs into pieces of at most `per` rows.
pub fn plan_chunks(runs: &[RunPlan], per: usize) -> (c: Vec<Chunk>)
    requires
        per > 0,
        all_pairs(runs@).len() <= usize::MAX,
        forall|k: int|
            0 <= k < runs@.len() ==> (#[trigger] runs@[k]).start + runs@[k].len <= usize::MAX,
    ensures
        chunks_cover(c@, runs@, per),
{
    let n: usize = runs.len();
    let ghost p = all_pairs(runs@);
    let mut c: Vec<Chunk> = Vec::new();
    let mut first: usize = 0;
    let mut k: usize = 0;
    proof {
        assert(runs@.take(0) =~= Seq::empty());
    }
    while k < n
        invariant
            k <= n == runs@.len(),
            per > 0,
            p == all_pairs(runs@),
            p.len() <= usize::MAX,
            forall|m: int|
                0 <= m < runs@.len() ==> (#[trigger] runs@[m]).start + runs@[m].len <= usize::MAX,
            first == all_pairs(runs@.take(k as int)).len(),
            first == chunk_rows(c@, c@.len() as int),
            forall|m: int|
                0 <= m < c@.len() ==> 0 < (#[trigger] c@[m]).rows <= per && c@[m].first
                    == chunk_rows(c@, m) && chunk_in(c@[m], runs@),
        decreases n - k,
    {
        let start: usize = runs[k].start;
        let len: usize = runs[k].len;
        let mut local: usize = 0;
        let ghost base = first as int;
        proof {
            lemma_all_pairs_take(runs@, k as int);
            lemma_all_pairs_prefix(runs@, k + 1);
        }
        while local < len
            invariant
                local <= len,
                per > 0,
                k < runs@.len(),
                p.len() <= usize::MAX,
                start == runs@[k as int].start,
                len == runs@[k as int].len,
                start + len <= usize::MAX,
                first == base + local,
                base == all_pairs(runs@.take(k as int)).len(),
                base + len <= p.len(),
                first == chunk_rows(c@, c@.len() as int),
                forall|m: int|
                    0 <= m < c@.len() ==> 0 < (#[trigger] c@[m]).rows <= per && c@[m].first
                        == chunk_rows(c@, m) && chunk_in(c@[m], runs@),
            decreases len - local,
        {
            let rows: usize = if per < len - local {
                per
            } else {
                len - local
            };
            let ghost old_c = c@;
            let piece: Chunk = Chunk { first, run: k, local, start: start + local, rows };
            c.push(piece);
            proof {
                assert forall|m: int| 0 <= m < c@.len() implies (#[trigger] c@[m]).first
                    == chunk_rows(c@, m) by {
                    lemma_chunk_rows_prefix(old_c, c@, m);
                    if m < old_c.len() {
                        assert(c@[m] == old_c[m]);
                    }
                }
                lemma_chunk_rows_prefix(old_c, c@, old_c.len() as int);
            }
            first = first + rows;
            local = local + rows;
        }
        k = k + 1;
    }
    proof {
        assert(runs@.take(n as int) =~= runs@);
    }
    c
}

} // verus!
