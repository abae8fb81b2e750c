//! Walking through the rows of a table: one by one out of a buffer, or in
//! chunks.

use vstd::prelude::*;

use crate::error::RowError;
use crate::rows::RowSelector;
use crate::runs::{law_slice_of_run, read_order};

verus! {

/// How many bytes a buffer of rows is meant to have.
pub const BUFFER_BYTES: usize = 8388608;

/// A walk through the rows of a table.
#[derive(Debug)]
pub struct TableIter {
    nrows: usize,
    /// The first row that has not been read.
    next_row: usize,
    /// The rows of a chunk; rows come one by one where there is none.
    chunksize: Option<usize>,
    /// The rows that are read at a time where rows come one by one.
    buffersize: usize,
    buf_len: usize,
    buf_cursor: usize,
}

/// What a walk needs or has next.
#[derive(Clone, Copy, PartialEq, Eq, Structural, Debug)]
pub enum IterStep {
    /// All rows have been handed out.
    Done,
    /// The rows from `lo` to `hi` are to be read.
    Read { lo: usize, hi: usize },
    /// The row at a place of the rows that were last read is handed out.
    Row { place: usize },
}

/// How many rows a buffer has, where a row has `itemsize` bytes: as many as fit
/// into it, but at least one.
pub open spec fn buffer_rows(itemsize: usize) -> int {
    if itemsize == 0 {
        8388608
    } else if itemsize > 8388608 {
        1
    } else {
        8388608int / (itemsize as int)
    }
}

impl TableIter {
    /// Whether a walk has read no more than there is, and handed out no more
    /// than it has read.
    pub closed spec fn wf(&self) -> bool {
        &&& self.next_row <= self.nrows
        &&& self.buf_cursor <= self.buf_len <= self.next_row
        &&& self.buffersize > 0
        &&& self.chunksize matches Some(n) ==> n > 0 && self.buf_len == 0
    }

    /// The rows of the table.
    pub closed spec fn total(&self) -> int {
        self.nrows as int
    }

    /// How many rows have been handed out.
    pub closed spec fn given(&self) -> int {
        self.next_row - self.buf_len + self.buf_cursor
    }

    /// How many rows have been read.
    pub closed spec fn read(&self) -> int {
        self.next_row as int
    }

    /// Whether rows come in chunks, and of how many.
    pub closed spec fn chunk(&self) -> Option<usize> {
        self.chunksize
    }

    /// How many rows are read at a time.
    pub closed spec fn at_once(&self) -> int {
        match self.chunksize {
            Some(n) => n as int,
            None => self.buffersize as int,
        }
    }

    /// What the walk needs or has next: rows that were read are handed out, and
    /// then the next ones are read.
    pub open spec fn step(&self) -> IterStep {
        let hi = if self.read() + self.at_once() < self.total() {
            self.read() + self.at_once()
        } else {
            self.total()
        };
        if self.chunk() is None && self.given() < self.read() {
            IterStep::Row { place: self.place() }
        } else if self.read() >= self.total() {
            IterStep::Done
        } else {
            IterStep::Read { lo: self.read() as usize, hi: hi as usize }
        }
    }

    /// The place of the next row among the rows that were last read.
    pub closed spec fn place(&self) -> usize {
        self.buf_cursor
    }

    /// The first of the rows that were last read.
    pub closed spec fn first_read(&self) -> int {
        self.next_row - self.buf_len
    }

    /// Whether a walk is at the start of a table of `nrows` rows, which it reads
    /// `at_once` at a time.
    pub open spec fn starts(&self, nrows: int, chunk: Option<usize>, at_once: int) -> bool {
        &&& self.wf()
        &&& self.total() == nrows
        &&& self.given() == 0
        &&& self.read() == 0
        &&& self.chunk() == chunk
        &&& self.at_once() == at_once
    }

    /// Whether a walk is through the same table in the same way.
    pub open spec fn same_walk(&self, before: &Self) -> bool {
        &&& self.wf()
        &&& self.total() == before.total()
        &&& self.chunk() == before.chunk()
        &&& self.at_once() == before.at_once()
    }

    /// Whether a walk is where it is after the rows up to `hi` have been read.
    /// In a walk in chunks they are then handed out.
    pub open spec fn is_filled(&self, before: &Self, hi: int) -> bool {
        &&& self.same_walk(before)
        &&& self.read() == hi
        &&& self.given() == if before.chunk() is Some {
            hi
        } else {
            before.given()
        }
        &&& before.chunk() is None ==> self.first_read() == before.read()
    }

    /// Whether a walk is where it is after one more row has been handed out.
    pub open spec fn is_taken(&self, before: &Self) -> bool {
        &&& self.same_walk(before)
        &&& self.read() == before.read()
        &&& self.given() == before.given() + 1
        &&& self.first_read() == before.first_read()
    }

    /// Whether a walk is where its next step leaves it: the rows that are needed
    /// have been read, or a row has been handed out. At the end it stays.
    pub open spec fn follows(&self, before: &Self) -> bool {
        match before.step() {
            IterStep::Done => *self == *before,
            IterStep::Read { lo, hi } => self.is_filled(before, hi as int),
            IterStep::Row { place } => self.is_taken(before),
        }
    }

    /// Says what the walk needs or has next.
    pub fn next_step(&self) -> (r: IterStep)
        requires
            self.wf(),
        ensures
            r == self.step(),
            r matches IterStep::Read { lo, hi } ==> lo == self.read() && lo < hi <= self.total()
                && lo == self.given(),
            r matches IterStep::Row { place } ==> self.first_read() + place == self.given()
                && self.given() < self.read(),
            r is Done <==> self.given() == self.total(),
    {
        let at_once: usize = match self.chunksize {
            Some(n) => n,
            None => {
                if self.buf_cursor < self.buf_len {
                    return IterStep::Row { place: self.buf_cursor };
                }
                self.buffersize
            },
        };
        if self.next_row >= self.nrows {
            return IterStep::Done;
        }
        let lo: usize = self.next_row;
        let hi: usize = if at_once < self.nrows - lo {
            lo + at_once
        } else {
            self.nrows
        };
        IterStep::Read { lo, hi }
    }

    /// Takes note that the rows up to `hi` have been read. In a walk in chunks
    /// they are then handed out.
    pub fn filled(&mut self, hi: usize)
        requires
            old(self).wf(),
            old(self).step() matches IterStep::Read { lo, hi: upto } && hi == upto,
        ensures
            final(self).is_filled(old(self), hi as int),
    {
        match self.chunksize {
            Some(_) => {},
            None => {
                self.buf_len = hi - self.next_row;
                self.buf_cursor = 0;
            },
        }
        self.next_row = hi;
    }

    /// Takes note that a row has been handed out.
    pub fn taken(&mut self)
        requires
            old(self).wf(),
            old(self).step() is Row,
        ensures
            final(self).is_taken(old(self)),
    {
        self.buf_cursor = self.buf_cursor + 1;
    }
}

/// Starts a walk through `nrows` rows, in chunks where a size is asked for.
/// A row has `itemsize` bytes.
pub fn make_table_iter(nrows: usize, chunksize: Option<usize>, itemsize: usize) -> (r: Result<
    TableIter,
    RowError,
>)
    ensures
        match r {
            Ok(t) => chunksize != Some(0usize) && t.starts(
                nrows as int,
                chunksize,
                match chunksize {
                    Some(n) => n as int,
                    None => buffer_rows(itemsize),
                },
            ),
            Err(e) => chunksize == Some(0usize) && e == RowError::ZeroChunk,
        },
{
    let buffersize: usize = match chunksize {
        Some(n) => {
            if n == 0 {
                return Err(RowError::ZeroChunk);
            }
            n
        },
        None => if itemsize == 0 {
            BUFFER_BYTES
        } else if itemsize > BUFFER_BYTES {
            1
        } else {
            proof {
                assert(8388608int / (itemsize as int) >= 1) by (nonlinear_arith)
                    requires
                        1 <= itemsize <= 8388608,
                ;
            }
            BUFFER_BYTES / itemsize
        },
    };
    Ok(TableIter { nrows, next_row: 0, chunksize, buffersize, buf_len: 0, buf_cursor: 0 })
}

// Whole walks --------------------------------------------------------------

/// Whether a walk goes on from one place to the next.
pub open spec fn goes_on(walk: Seq<TableIter>, k: int) -> bool {
    walk[k + 1].follows(&walk[k])
}

/// Whether the places of a walk follow each other from its start.
pub open spec fn is_walk(
    walk: Seq<TableIter>,
    nrows: usize,
    chunk: Option<usize>,
    at_once: int,
) -> bool {
    &&& walk.len() > 0
    &&& walk[0].starts(nrows as int, chunk, at_once)
    &&& forall|k: int| 0 <= k < walk.len() - 1 ==> #[trigger] goes_on(walk, k)
}

/// How many reads of `n` rows a table takes: the last may be of fewer.
pub open spec fn read_count(nrows: usize, n: int) -> int {
    (nrows + n - 1) / n
}

/// How far the first `k` reads of `n` rows get.
pub open spec fn read_end(nrows: usize, n: int, k: int) -> int {
    if k * n < nrows {
        k * n
    } else {
        nrows as int
    }
}

/// The `k`-th read of `n` rows, where reads count from 0.
pub open spec fn nth_read(nrows: usize, n: int, k: int) -> IterStep {
    IterStep::Read {
        lo: read_end(nrows, n, k) as usize,
        hi: read_end(nrows, n, k + 1) as usize,
    }
}

proof fn lemma_read_count(nrows: usize, n: int, k: int)
    requires
        n > 0,
        0 <= k,
    ensures
        k < read_count(nrows, n) <==> k * n < nrows,
        k * n >= 0,
        (k + 1) * n == k * n + n,
        read_count(nrows, n) >= 0,
        read_end(nrows, n, read_count(nrows, n)) == nrows,
{
    let c = read_count(nrows, n);
    let m = nrows + n - 1;
    assert((k + 1) * n == k * n + n) by (nonlinear_arith);
    assert(k * n >= 0) by (nonlinear_arith)
        requires
            n > 0,
            0 <= k,
    ;
    assert(c * n <= m < c * n + n && c >= 0) by (nonlinear_arith)
        requires
            n > 0,
            m >= 0,
            c == m / n,
    ;
    if k < c {
        assert((k + 1) * n <= c * n) by (nonlinear_arith)
            requires
                n > 0,
                k + 1 <= c,
        ;
    } else {
        assert(k * n >= c * n) by (nonlinear_arith)
            requires
                n > 0,
                k >= c,
        ;
    }
}

proof fn lemma_chunk_walk(walk: Seq<TableIter>, nrows: usize, n: usize, k: int)
    requires
        is_walk(walk, nrows, Some(n), n as int),
        0 <= k < walk.len(),
    ensures
        walk[k].wf(),
        walk[k].total() == nrows,
        walk[k].chunk() == Some(n),
        walk[k].at_once() == n,
        walk[k].read() == read_end(nrows, n as int, k),
        walk[k].given() == walk[k].read(),
    decreases k,
{
    if k > 0 {
        lemma_chunk_walk(walk, nrows, n, k - 1);
        lemma_read_count(nrows, n as int, k - 1);
        assert(goes_on(walk, k - 1));
    }
}

/// A walk in chunks of `n` rows takes as many reads as there are chunks. The
/// `k`-th is from row `k * n` to `n` rows on, or to the end of the table. Behind
/// the last the walk is at its end, and stays there.
pub proof fn law_chunk_walk(walk: Seq<TableIter>, nrows: usize, n: usize)
    requires
        is_walk(walk, nrows, Some(n), n as int),
    ensures
        forall|k: int|
            0 <= k < walk.len() ==> {
                &&& (#[trigger] walk[k]).given() == read_end(nrows, n as int, k)
                &&& walk[k].step() == if k < read_count(nrows, n as int) {
                    nth_read(nrows, n as int, k)
                } else {
                    IterStep::Done
                }
            },
{
    assert forall|k: int| 0 <= k < walk.len() implies {
        &&& (#[trigger] walk[k]).given() == read_end(nrows, n as int, k)
        &&& walk[k].step() == if k < read_count(nrows, n as int) {
            nth_read(nrows, n as int, k)
        } else {
            IterStep::Done
        }
    } by {
        lemma_chunk_walk(walk, nrows, n, k);
        lemma_read_count(nrows, n as int, k);
    }
}

/// The selection of the rows of the `k`-th read of `n` rows.
pub open spec fn read_rows(nrows: usize, n: int, k: int) -> RowSelector {
    RowSelector::Slice {
        start: read_end(nrows, n, k) as i64,
        stop: read_end(nrows, n, k + 1) as i64,
        step: 1,
    }
}

/// The rows of the first `k` reads of `n` rows, one read behind the other.
pub open spec fn joined_reads(nrows: usize, n: int, k: int) -> Seq<usize>
    decreases k,
{
    if k <= 0 {
        Seq::empty()
    } else {
        joined_reads(nrows, n, k - 1) + read_order(
            Some(read_rows(nrows, n, k - 1)),
            nrows,
        )->Ok_0
    }
}

proof fn lemma_joined_reads(nrows: usize, n: int, k: int)
    requires
        n > 0,
        nrows <= i64::MAX,
        0 <= k <= read_count(nrows, n),
    ensures
        joined_reads(nrows, n, k) == Seq::new(
            read_end(nrows, n, k) as nat,
            |i: int| i as usize,
        ),
        forall|j: int|
            0 <= j < k ==> read_order(
                Some(#[trigger] read_rows(nrows, n, j)),
                nrows,
            ) is Ok,
    decreases k,
{
    if k > 0 {
        lemma_joined_reads(nrows, n, k - 1);
        lemma_read_count(nrows, n, k - 1);
        let lo = read_end(nrows, n, k - 1);
        let hi = read_end(nrows, n, k);
        law_slice_of_run(lo as usize, hi as usize, nrows);
        assert(joined_reads(nrows, n, k) =~= Seq::new(hi as nat, |i: int| i as usize));
    } else {
        assert(0 * n == 0) by (nonlinear_arith);
        assert(joined_reads(nrows, n, k) =~= Seq::new(
            read_end(nrows, n, k) as nat,
            |i: int| i as usize,
        ));
    }
}

/// The reads of a walk give every row of the table once, in the order of the
/// file: behind each other they are a read of all rows.
pub proof fn law_reads_join(nrows: usize, n: int)
    requires
        n > 0,
        nrows <= i64::MAX,
    ensures
        forall|k: int|
            0 <= k < read_count(nrows, n) ==> read_order(
                Some(#[trigger] read_rows(nrows, n, k)),
                nrows,
            ) is Ok,
        read_order(None, nrows) == Ok::<Seq<usize>, RowError>(
            joined_reads(nrows, n, read_count(nrows, n)),
        ),
{
    lemma_read_count(nrows, n, 0);
    lemma_joined_reads(nrows, n, read_count(nrows, n));
}

/// How many of the first `k` steps of a walk hand out a row.
pub open spec fn rows_handed(walk: Seq<TableIter>, k: int) -> int
    decreases k,
{
    if k <= 0 {
        0
    } else {
        rows_handed(walk, k - 1) + if walk[k - 1].step() is Row {
            1int
        } else {
            0
        }
    }
}

/// How many of the first `k` steps of a walk read rows.
pub open spec fn reads_made(walk: Seq<TableIter>, k: int) -> int
    decreases k,
{
    if k <= 0 {
        0
    } else {
        reads_made(walk, k - 1) + if walk[k - 1].step() is Read {
            1int
        } else {
            0
        }
    }
}

proof fn lemma_row_walk(walk: Seq<TableIter>, nrows: usize, n: int, k: int)
    requires
        is_walk(walk, nrows, None, n),
        0 <= k < walk.len(),
    ensures
        n > 0,
        walk[k].wf(),
        walk[k].total() == nrows,
        walk[k].chunk() is None,
        walk[k].at_once() == n,
        walk[k].given() == rows_handed(walk, k),
        0 <= reads_made(walk, k) <= read_count(nrows, n),
        walk[k].read() == read_end(nrows, n, reads_made(walk, k)),
        walk[k].given() < walk[k].read() ==> walk[k].first_read() == read_end(
            nrows,
            n,
            reads_made(walk, k) - 1,
        ) && reads_made(walk, k) > 0,
        walk[k].step() is Done || rows_handed(walk, k) + reads_made(walk, k) == k,
    decreases k,
{
    if k > 0 {
        lemma_row_walk(walk, nrows, n, k - 1);
        lemma_read_count(nrows, n, reads_made(walk, k - 1));
        assert(goes_on(walk, k - 1));
    } else {
        lemma_read_count(nrows, n, 0);
    }
}

/// In a walk row by row the rows come in the order of the file, each once, out
/// of reads of `n` rows that follow each other. It is at its end when all rows
/// have been handed out, stays there, and gets there.
pub proof fn law_row_walk(walk: Seq<TableIter>, nrows: usize, n: int)
    requires
        is_walk(walk, nrows, None, n),
    ensures
        forall|k: int|
            0 <= k < walk.len() ==> {
                let handed = rows_handed(walk, k);
                let reads = reads_made(walk, k);
                &&& match (#[trigger] walk[k]).step() {
                    IterStep::Row { place } => handed < nrows && reads > 0 && read_end(
                        nrows,
                        n,
                        reads - 1,
                    ) + place == handed,
                    IterStep::Read { lo, hi } => walk[k].step() == nth_read(nrows, n, reads)
                        && handed == lo && reads < read_count(nrows, n),
                    IterStep::Done => handed == nrows && reads == read_count(nrows, n),
                }
                &&& k >= nrows + read_count(nrows, n) ==> walk[k].step() is Done
            },
{
    assert forall|k: int| 0 <= k < walk.len() implies {
        let handed = rows_handed(walk, k);
        let reads = reads_made(walk, k);
        &&& match (#[trigger] walk[k]).step() {
            IterStep::Row { place } => handed < nrows && reads > 0 && read_end(
                nrows,
                n,
                reads - 1,
            ) + place == handed,
            IterStep::Read { lo, hi } => walk[k].step() == nth_read(nrows, n, reads)
                && handed == lo && reads < read_count(nrows, n),
            IterStep::Done => handed == nrows && reads == read_count(nrows, n),
        }
        &&& k >= nrows + read_count(nrows, n) ==> walk[k].step() is Done
    } by {
        lemma_row_walk(walk, nrows, n, k);
        lemma_read_count(nrows, n, reads_made(walk, k));
    }
}

} // verus!
