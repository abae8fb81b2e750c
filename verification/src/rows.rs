//! Selections of rows, the runs of the file that hold them, and the order in
//! which rows are handed out.

use std::collections::HashSet;

use vstd::prelude::*;

use crate::error::RowError;

verus! {

broadcast use vstd::std_specs::hash::group_hash_axioms;

/// A selection of rows: a slice whose ends a caller has fitted to the table, or
/// a list of indices, where a negative one counts from the end.
#[derive(Debug)]
pub enum RowSelector {
    Slice { start: i64, stop: i64, step: i64 },
    List(Vec<i64>),
}

// Single rows --------------------------------------------------------------

/// The row that an index names; a negative index counts from the end.
pub open spec fn row_at(i: i64, nrows: int) -> Option<int> {
    let r = if i < 0 {
        i + nrows
    } else {
        i as int
    };
    if 0 <= r < nrows {
        Some(r)
    } else {
        None
    }
}

/// The row that an index names.
pub fn normalize_row_index(i: i64, nrows: usize) -> (r: Result<usize, RowError>)
    requires
        nrows <= i64::MAX,
    ensures
        match r {
            Ok(k) => row_at(i, nrows as int) == Some(k as int),
            Err(e) => row_at(i, nrows as int) is None && e == (RowError::OutOfRange {
                index: i,
                nrows,
            }),
        },
{
    let n: i64 = nrows as i64;
    let r: i64 = if i < 0 {
        i + n
    } else {
        i
    };
    if r < 0 || r >= n {
        return Err(RowError::OutOfRange { index: i, nrows });
    }
    Ok(r as usize)
}

/// The rows that a list of indices names, or the first index that names none.
pub open spec fn rows_at(list: Seq<i64>, nrows: usize) -> Result<Seq<usize>, RowError>
    decreases list.len(),
{
    if list.len() == 0 {
        Ok(Seq::empty())
    } else {
        match rows_at(list.drop_last(), nrows) {
            Err(e) => Err(e),
            Ok(s) => match row_at(list.last(), nrows as int) {
                Some(r) => Ok(s.push(r as usize)),
                None => Err(RowError::OutOfRange { index: list.last(), nrows }),
            },
        }
    }
}

proof fn lemma_rows_prefix(list: Seq<i64>, k: int, nrows: usize)
    requires
        0 <= k <= list.len(),
        rows_at(list.take(k), nrows) is Err,
    ensures
        rows_at(list, nrows) == rows_at(list.take(k), nrows),
    decreases list.len(),
{
    if k < list.len() {
        assert(list.drop_last().take(k) =~= list.take(k));
        lemma_rows_prefix(list.drop_last(), k, nrows);
    } else {
        assert(list.take(k) =~= list);
    }
}

/// Every index of a list that names rows names one of the table.
pub proof fn lemma_rows_at(list: Seq<i64>, nrows: usize)
    ensures
        rows_at(list, nrows) matches Ok(s) ==> {
            &&& s.len() == list.len()
            &&& forall|i: int| 0 <= i < s.len() ==> s[i] < nrows
            &&& forall|i: int|
                0 <= i < s.len() ==> row_at(list[i], nrows as int) == Some(#[trigger] s[i] as int)
        },
    decreases list.len(),
{
    if list.len() > 0 {
        lemma_rows_at(list.drop_last(), nrows);
        assert(forall|i: int| 0 <= i < list.len() - 1 ==> list.drop_last()[i] == list[i]);
    }
}

/// The rows that a list of indices names.
pub fn normalize_rows(list: &[i64], nrows: usize) -> (r: Result<Vec<usize>, RowError>)
    requires
        nrows <= i64::MAX,
    ensures
        match r {
            Ok(v) => rows_at(list@, nrows) == Ok::<Seq<usize>, RowError>(v@),
            Err(e) => rows_at(list@, nrows) == Err::<Seq<usize>, RowError>(e),
        },
{
    let n: usize = list.len();
    let mut out: Vec<usize> = Vec::new();
    let mut i: usize = 0;
    assert(list@.take(0) =~= Seq::empty());
    while i < n
        invariant
            i <= n == list@.len(),
            nrows <= i64::MAX,
            rows_at(list@.take(i as int), nrows) == Ok::<Seq<usize>, RowError>(out@),
        decreases n - i,
    {
        proof {
            assert(list@.take(i + 1).drop_last() =~= list@.take(i as int));
        }
        match normalize_row_index(list[i], nrows) {
            Ok(r) => {
                out.push(r);
            },
            Err(e) => {
                proof {
                    lemma_rows_prefix(list@, i + 1, nrows);
                }
                return Err(e);
            },
        }
        i = i + 1;
    }
    assert(list@.take(n as int) =~= list@);
    Ok(out)
}

// Slices -------------------------------------------------------------------

/// Whether a slice goes on at `i`.
pub open spec fn slice_goes_on(i: int, stop: int, step: int, nrows: int) -> bool {
    ((step > 0 && i < stop) || (step < 0 && i > stop)) && 0 <= i < nrows
}

/// How far a slice still has to go.
pub open spec fn slice_left(i: int, stop: int, step: int) -> int {
    let d = if step > 0 {
        stop - i
    } else {
        i - stop
    };
    if d > 0 {
        d
    } else {
        0
    }
}

/// The rows from `i` on in steps of `step`, before `stop` and within the table.
pub open spec fn slice_rows(i: int, stop: int, step: int, nrows: int) -> Seq<usize>
    decreases slice_left(i, stop, step),
{
    if slice_goes_on(i, stop, step, nrows) {
        seq![i as usize] + slice_rows(i + step, stop, step, nrows)
    } else {
        Seq::empty()
    }
}

/// The rows of a slice lie `step` apart, and within the table.
pub proof fn lemma_slice_rows(i: int, stop: int, step: int, nrows: usize)
    ensures
        ({
            let s = slice_rows(i, stop, step, nrows as int);
            &&& forall|k: int| 0 <= k < s.len() ==> (#[trigger] s[k]) == i + k * step
            &&& forall|k: int| 0 <= k < s.len() ==> (#[trigger] s[k]) < nrows
        }),
    decreases slice_left(i, stop, step),
{
    let s = slice_rows(i, stop, step, nrows as int);
    if slice_goes_on(i, stop, step, nrows as int) {
        let t = slice_rows(i + step, stop, step, nrows as int);
        lemma_slice_rows(i + step, stop, step, nrows);
        assert forall|k: int| 0 <= k < s.len() implies (#[trigger] s[k]) == i + k * step && s[k]
            < nrows by {
            if k > 0 {
                assert(s[k] == t[k - 1]);
                assert((k - 1) * step + step == k * step) by (nonlinear_arith);
            } else {
                assert(k * step == 0) by (nonlinear_arith)
                    requires
                        k == 0,
                ;
            }
        }
    }
}

/// The rows from `start` on in steps of `step`, before `stop` and within the
/// table.
pub fn walk_slice(start: i64, stop: i64, step: i64, nrows: usize) -> (r: Vec<usize>)
    requires
        step != 0,
        nrows <= i64::MAX,
    ensures
        r@ == slice_rows(start as int, stop as int, step as int, nrows as int),
{
    let n: i64 = nrows as i64;
    let mut out: Vec<usize> = Vec::new();
    let mut i: i64 = start;
    let ghost want = slice_rows(start as int, stop as int, step as int, nrows as int);
    assert(want =~= out@ + want);
    while ((step > 0 && i < stop) || (step < 0 && i > stop)) && 0 <= i && i < n
        invariant
            n == nrows,
            step != 0,
            want == slice_rows(start as int, stop as int, step as int, nrows as int),
            want == out@ + slice_rows(i as int, stop as int, step as int, nrows as int),
        decreases slice_left(i as int, stop as int, step as int),
    {
        let ghost rest = slice_rows(i + step, stop as int, step as int, nrows as int);
        assert(out@ + (seq![i as usize] + rest) =~= out@.push(i as usize) + rest);
        out.push(i as usize);
        match i.checked_add(step) {
            None => {
                // Beyond 64 bits there is no row.
                assert(rest =~= Seq::empty());
                assert(out@ + rest =~= out@);
                return out;
            },
            Some(next) => {
                i = next;
            },
        }
    }
    assert(out@ =~= want);
    out
}

// Each row once ------------------------------------------------------------

/// The rows without the repetitions: the first of equal ones stays.
pub open spec fn without_repeats(s: Seq<usize>) -> Seq<usize>
    decreases s.len(),
{
    if s.len() == 0 {
        s
    } else {
        let t = without_repeats(s.drop_last());
        if t.contains(s.last()) {
            t
        } else {
            t.push(s.last())
        }
    }
}

/// No row stays twice, and each one stays once.
pub proof fn lemma_without_repeats(s: Seq<usize>)
    ensures
        without_repeats(s).no_duplicates(),
        without_repeats(s).len() <= s.len(),
        forall|x: usize| without_repeats(s).contains(x) <==> s.contains(x),
        s.len() > 0 ==> without_repeats(s).len() > 0,
    decreases s.len(),
{
    if s.len() > 0 {
        let p = s.drop_last();
        let t = without_repeats(p);
        let u = without_repeats(s);
        lemma_without_repeats(p);
        assert(s =~= p.push(s.last()));
        assert forall|x: usize| u.contains(x) <==> s.contains(x) by {
            if s.contains(x) {
                let i = choose|i: int| 0 <= i < s.len() && s[i] == x;
                if i < p.len() {
                    assert(p[i] == x);
                    assert(p.contains(x));
                    assert(t.contains(x));
                    let j = choose|j: int| 0 <= j < t.len() && t[j] == x;
                    assert(u[j] == x);
                } else if !t.contains(x) {
                    assert(u[t.len() as int] == x);
                }
            }
            if u.contains(x) {
                let j = choose|j: int| 0 <= j < u.len() && u[j] == x;
                if j < t.len() {
                    assert(t[j] == x);
                    assert(p.contains(x));
                    let i = choose|i: int| 0 <= i < p.len() && p[i] == x;
                    assert(s[i] == x);
                } else {
                    assert(s[s.len() - 1] == x);
                }
            }
        }
    }
}

fn drop_repeats(rows: &Vec<usize>) -> (r: Vec<usize>)
    ensures
        r@ == without_repeats(rows@),
{
    let n: usize = rows.len();
    let mut seen: HashSet<usize> = HashSet::new();
    let mut out: Vec<usize> = Vec::new();
    let mut i: usize = 0;
    assert(rows@.take(0) =~= Seq::empty());
    while i < n
        invariant
            i <= n == rows@.len(),
            out@ == without_repeats(rows@.take(i as int)),
            forall|x: usize| seen@.contains(x) <==> out@.contains(x),
        decreases n - i,
    {
        let row: usize = rows[i];
        let ghost before = out@;
        proof {
            assert(rows@.take(i + 1).drop_last() =~= rows@.take(i as int));
        }
        if seen.insert(row) {
            out.push(row);
            assert forall|x: usize| seen@.contains(x) <==> out@.contains(x) by {
                if before.contains(x) {
                    let j = choose|j: int| 0 <= j < before.len() && before[j] == x;
                    assert(out@[j] == x);
                }
                assert(out@[before.len() as int] == row);
            }
        }
        i = i + 1;
    }
    assert(rows@.take(n as int) =~= rows@);
    out
}

/// Whether a selection may name no row: the slice of all rows, one after the
/// other, of a table that has none.
pub open spec fn may_be_empty(sel: RowSelector, nrows: usize) -> bool {
    nrows == 0 && sel == RowSelector::Slice { start: 0, stop: 0, step: 1 }
}

/// The rows that a selection names, in its order, each of them once. It has to
/// name one, but for all rows of a table without any.
pub open spec fn selected_rows(sel: RowSelector, nrows: usize) -> Result<Seq<usize>, RowError> {
    let named = match sel {
        RowSelector::Slice { start, stop, step } => if step == 0 {
            Err(RowError::ZeroStep)
        } else {
            Ok(slice_rows(start as int, stop as int, step as int, nrows as int))
        },
        RowSelector::List(list) => rows_at(list@, nrows),
    };
    match named {
        Err(e) => Err(e),
        Ok(s) => if s.len() == 0 && !may_be_empty(sel, nrows) {
            Err(RowError::NoRows)
        } else {
            Ok(without_repeats(s))
        },
    }
}

/// A selection names rows of the table, each of them once, and at least one but
/// for all rows of a table without any.
pub proof fn law_selected_rows(sel: RowSelector, nrows: usize)
    ensures
        selected_rows(sel, nrows) matches Ok(s) ==> {
            &&& s.len() > 0 || may_be_empty(sel, nrows)
            &&& s.no_duplicates()
            &&& forall|i: int| 0 <= i < s.len() ==> s[i] < nrows
        },
{
    match sel {
        RowSelector::Slice { start, stop, step } => {
            let named = slice_rows(start as int, stop as int, step as int, nrows as int);
            lemma_slice_rows(start as int, stop as int, step as int, nrows);
            lemma_without_repeats(named);
            lemma_members(named, nrows);
        },
        RowSelector::List(list) => {
            lemma_rows_at(list@, nrows);
            if rows_at(list@, nrows) is Ok {
                let named = rows_at(list@, nrows)->Ok_0;
                lemma_without_repeats(named);
                lemma_members(named, nrows);
            }
        },
    }
}

proof fn lemma_members(named: Seq<usize>, nrows: usize)
    requires
        forall|i: int| 0 <= i < named.len() ==> named[i] < nrows,
    ensures
        forall|i: int|
            0 <= i < without_repeats(named).len() ==> without_repeats(named)[i] < nrows,
{
    lemma_without_repeats(named);
    let u = without_repeats(named);
    assert forall|i: int| 0 <= i < u.len() implies u[i] < nrows by {
        assert(u.contains(u[i]));
        assert(named.contains(u[i]));
    }
}

/// The rows that a selection names.
pub fn resolve_rows(sel: &RowSelector, nrows: usize) -> (r: Result<Vec<usize>, RowError>)
    requires
        nrows <= i64::MAX,
    ensures
        match r {
            Ok(v) => selected_rows(*sel, nrows) == Ok::<Seq<usize>, RowError>(v@),
            Err(e) => selected_rows(*sel, nrows) == Err::<Seq<usize>, RowError>(e),
        },
{
    let empty: bool = match sel {
        RowSelector::Slice { start, stop, step } => nrows == 0 && *start == 0 && *stop == 0 && *step
            == 1,
        RowSelector::List(_) => false,
    };
    let named: Vec<usize> = match sel {
        RowSelector::Slice { start, stop, step } => {
            if *step == 0 {
                return Err(RowError::ZeroStep);
            }
            walk_slice(*start, *stop, *step, nrows)
        },
        RowSelector::List(list) => match normalize_rows(list, nrows) {
            Ok(v) => v,
            Err(e) => {
                return Err(e);
            },
        },
    };
    if named.len() == 0 && !empty {
        return Err(RowError::NoRows);
    }
    Ok(drop_repeats(&named))
}

// Sorting ------------------------------------------------------------------

/// Whether one pair comes before or with another: by the first number, then by
/// the second.
pub open spec fn pair_le(a: (i64, usize), b: (i64, usize)) -> bool {
    a.0 < b.0 || (a.0 == b.0 && a.1 <= b.1)
}

/// Whether pairs stand in order.
pub open spec fn pairs_sorted(s: Seq<(i64, usize)>) -> bool {
    forall|i: int, j: int| 0 <= i <= j < s.len() ==> pair_le(#[trigger] s[i], #[trigger] s[j])
}

fn merge(a: &Vec<(i64, usize)>, b: &Vec<(i64, usize)>) -> (r: Vec<(i64, usize)>)
    requires
        pairs_sorted(a@),
        pairs_sorted(b@),
    ensures
        pairs_sorted(r@),
        r@.to_multiset() == a@.to_multiset().add(b@.to_multiset()),
{
    let na: usize = a.len();
    let nb: usize = b.len();
    let mut r: Vec<(i64, usize)> = Vec::new();
    let mut i: usize = 0;
    let mut j: usize = 0;
    proof {
        a@.to_multiset_ensures();
        b@.to_multiset_ensures();
        assert(a@.take(0) =~= Seq::empty());
        assert(b@.take(0) =~= Seq::empty());
        a@.take(0).to_multiset_ensures();
        assert(r@.to_multiset() =~= a@.take(0).to_multiset().add(b@.take(0).to_multiset()));
    }
    while i < na || j < nb
        invariant
            i <= na == a@.len(),
            j <= nb == b@.len(),
            pairs_sorted(a@),
            pairs_sorted(b@),
            pairs_sorted(r@),
            forall|k: int, m: int|
                0 <= k < r@.len() && i <= m < na ==> pair_le(#[trigger] r@[k], #[trigger] a@[m]),
            forall|k: int, m: int|
                0 <= k < r@.len() && j <= m < nb ==> pair_le(#[trigger] r@[k], #[trigger] b@[m]),
            r@.to_multiset() == a@.take(i as int).to_multiset().add(
                b@.take(j as int).to_multiset(),
            ),
        decreases (na - i) + (nb - j),
    {
        let from_a: bool = if i >= na {
            false
        } else if j >= nb {
            true
        } else {
            let x: (i64, usize) = a[i];
            let y: (i64, usize) = b[j];
            x.0 < y.0 || (x.0 == y.0 && x.1 <= y.1)
        };
        let ghost before = r@;
        proof {
            before.to_multiset_ensures();
            a@.take(i as int).to_multiset_ensures();
            b@.take(j as int).to_multiset_ensures();
        }
        if from_a {
            proof {
                assert(a@.take(i + 1) =~= a@.take(i as int).push(a@[i as int]));
                assert(before.push(a@[i as int]).to_multiset() =~= a@.take(i + 1).to_multiset().add(
                    b@.take(j as int).to_multiset(),
                ));
            }
            r.push(a[i]);
            i = i + 1;
        } else {
            proof {
                assert(b@.take(j + 1) =~= b@.take(j as int).push(b@[j as int]));
                assert(before.push(b@[j as int]).to_multiset() =~= a@.take(
                    i as int,
                ).to_multiset().add(b@.take(j + 1).to_multiset()));
            }
            r.push(b[j]);
            j = j + 1;
        }
    }
    assert(a@.take(na as int) =~= a@);
    assert(b@.take(nb as int) =~= b@);
    r
}

/// Sorts pairs by the first number, then by the second.
pub fn sort_pairs(v: &[(i64, usize)]) -> (r: Vec<(i64, usize)>)
    ensures
        pairs_sorted(r@),
        r@.to_multiset() == v@.to_multiset(),
        r@.len() == v@.len(),
    decreases v@.len(),
{
    let n: usize = v.len();
    if n <= 1 {
        let mut r: Vec<(i64, usize)> = Vec::new();
        if n == 1 {
            r.push(v[0]);
        }
        assert(r@ =~= v@);
        return r;
    }
    let m: usize = n / 2;
    let (x, y) = v.split_at(m);
    let a: Vec<(i64, usize)> = sort_pairs(x);
    let b: Vec<(i64, usize)> = sort_pairs(y);
    let r: Vec<(i64, usize)> = merge(&a, &b);
    proof {
        assert(x@ + y@ =~= v@);
        vstd::seq_lib::lemma_multiset_commutative(x@, y@);
        r@.to_multiset_ensures();
        v@.to_multiset_ensures();
    }
    r
}

} // verus!
