//! What the key of a selection selects: rows, columns or a cell.

use vstd::prelude::*;

use crate::error::{KeyError, RowError};
use crate::heap::{ascii_text, find_non_ascii, first_non_ascii};
use crate::rows::{normalize_row_index, row_at, slice_rows, walk_slice};
use crate::text::{string_of, texts};

verus! {

/// A part of a key.
#[derive(Debug)]
pub enum KeyItem {
    /// A truth value, which is no number here.
    Bool,
    Int(i64),
    Text(String),
    Bytes(Vec<u8>),
    /// Something else.
    Other,
}

/// A key.
#[derive(Debug)]
pub enum Key {
    /// A slice of rows.
    Slice,
    /// One thing, which is not made of others.
    Item(KeyItem),
    /// Things one after the other; a pair is a tuple of two.
    Sequence { items: Vec<KeyItem>, tuple: bool },
}

// Names --------------------------------------------------------------------

/// The name of a column that a part of a key is; bytes are one where they are
/// ASCII.
pub open spec fn item_name(item: KeyItem) -> Result<Option<Seq<char>>, KeyError> {
    match item {
        KeyItem::Text(s) => Ok(Some(s@)),
        KeyItem::Bytes(b) => if first_non_ascii(b@) is Some {
            Err(KeyError::NonAsciiName)
        } else {
            Ok(Some(ascii_text(b@)))
        },
        _ => Ok(None),
    }
}

/// The name of a column that a part of a key is.
pub fn try_extract_column_name(item: &KeyItem) -> (r: Result<Option<String>, KeyError>)
    ensures
        match r {
            Ok(Some(s)) => item_name(*item) == Ok::<Option<Seq<char>>, KeyError>(Some(s@)),
            Ok(None) => item_name(*item) == Ok::<Option<Seq<char>>, KeyError>(None),
            Err(e) => item_name(*item) == Err::<Option<Seq<char>>, KeyError>(e),
        },
{
    match item {
        KeyItem::Text(s) => Ok(Some(s.clone())),
        KeyItem::Bytes(b) => {
            match find_non_ascii(b) {
                Some(_) => {
                    return Err(KeyError::NonAsciiName);
                },
                None => {},
            }
            let n: usize = b.len();
            let mut c: Vec<char> = Vec::new();
            let mut i: usize = 0;
            while i < n
                invariant
                    i <= n == b@.len(),
                    c@ == ascii_text(b@).take(i as int),
                decreases n - i,
            {
                c.push(b[i] as char);
                i = i + 1;
                assert(c@ =~= ascii_text(b@).take(i as int));
            }
            assert(c@ =~= ascii_text(b@));
            Ok(Some(string_of(&c)))
        },
        _ => Ok(None),
    }
}

/// The names that the first `k` parts of a key are, or the first part that is
/// none.
pub open spec fn names_listed(items: Seq<KeyItem>, k: nat) -> Result<Seq<Seq<char>>, KeyError>
    decreases k,
{
    if k == 0 {
        Ok(Seq::empty())
    } else {
        match names_listed(items, (k - 1) as nat) {
            Err(e) => Err(e),
            Ok(s) => match item_name(items[k - 1]) {
                Err(e) => Err(e),
                Ok(None) => Err(KeyError::MixedNames),
                Ok(Some(n)) => Ok(s.push(n)),
            },
        }
    }
}

proof fn lemma_names_listed(items: Seq<KeyItem>, m: nat, k: nat)
    requires
        m <= k,
        names_listed(items, m) is Err,
    ensures
        names_listed(items, k) == names_listed(items, m),
    decreases k,
{
    if m < k {
        lemma_names_listed(items, m, (k - 1) as nat);
    }
}

fn list_names(items: &Vec<KeyItem>) -> (r: Result<Vec<String>, KeyError>)
    ensures
        match r {
            Ok(v) => names_listed(items@, items@.len()) == Ok::<Seq<Seq<char>>, KeyError>(
                texts(v@),
            ),
            Err(e) => names_listed(items@, items@.len()) == Err::<Seq<Seq<char>>, KeyError>(e),
        },
{
    let n: usize = items.len();
    let mut out: Vec<String> = Vec::new();
    let mut i: usize = 0;
    assert(texts(out@) =~= Seq::empty());
    while i < n
        invariant
            i <= n == items@.len(),
            names_listed(items@, i as nat) == Ok::<Seq<Seq<char>>, KeyError>(texts(out@)),
        decreases n - i,
    {
        let ghost was = texts(out@);
        match try_extract_column_name(&items[i]) {
            Err(e) => {
                proof {
                    lemma_names_listed(items@, (i + 1) as nat, n as nat);
                }
                return Err(e);
            },
            Ok(None) => {
                proof {
                    lemma_names_listed(items@, (i + 1) as nat, n as nat);
                }
                return Err(KeyError::MixedNames);
            },
            Ok(Some(s)) => {
                let ghost t = s@;
                out.push(s);
                assert(texts(out@) =~= was.push(t));
            },
        }
        i = i + 1;
    }
    Ok(out)
}

// Reading ------------------------------------------------------------------

/// What a key selects on reading.
#[derive(Debug)]
pub enum TableKey {
    /// Rows, which the key itself says.
    Rows,
    SingleRow(i64),
    SingleColumn(String),
    MultiColumns(Vec<String>),
}

/// What a key selects on reading, with its texts as sequences.
pub enum TableKeyView {
    Rows,
    SingleRow(i64),
    SingleColumn(Seq<char>),
    MultiColumns(Seq<Seq<char>>),
}

impl View for TableKey {
    type V = TableKeyView;

    open spec fn view(&self) -> TableKeyView {
        match *self {
            TableKey::Rows => TableKeyView::Rows,
            TableKey::SingleRow(i) => TableKeyView::SingleRow(i),
            TableKey::SingleColumn(s) => TableKeyView::SingleColumn(s@),
            TableKey::MultiColumns(v) => TableKeyView::MultiColumns(texts(v@)),
        }
    }
}

/// What a key selects on reading. A sequence selects what its first part is:
/// names of columns, or numbers of rows.
pub open spec fn table_key(key: Key) -> Result<TableKeyView, KeyError> {
    match key {
        Key::Slice => Ok(TableKeyView::Rows),
        Key::Item(item) => match item_name(item) {
            Err(e) => Err(e),
            Ok(Some(n)) => Ok(TableKeyView::SingleColumn(n)),
            Ok(None) => match item {
                KeyItem::Int(i) => Ok(TableKeyView::SingleRow(i)),
                _ => Err(KeyError::NotKey),
            },
        },
        Key::Sequence { items, tuple } => if items@.len() == 0 {
            Err(KeyError::EmptySequence)
        } else {
            match item_name(items@[0]) {
                Err(e) => Err(e),
                Ok(Some(_)) => match names_listed(items@, items@.len()) {
                    Err(e) => Err(e),
                    Ok(n) => Ok(TableKeyView::MultiColumns(n)),
                },
                Ok(None) => if items@[0] is Int {
                    Ok(TableKeyView::Rows)
                } else {
                    Err(KeyError::NeitherRowsNorColumns)
                },
            }
        },
    }
}

/// Says what a key selects on reading.
pub fn classify_table_key(key: &Key) -> (r: Result<TableKey, KeyError>)
    ensures
        match r {
            Ok(k) => table_key(*key) == Ok::<TableKeyView, KeyError>(k@),
            Err(e) => table_key(*key) == Err::<TableKeyView, KeyError>(e),
        },
{
    match key {
        Key::Slice => Ok(TableKey::Rows),
        Key::Item(item) => match try_extract_column_name(item) {
            Err(e) => Err(e),
            Ok(Some(n)) => Ok(TableKey::SingleColumn(n)),
            Ok(None) => match item {
                KeyItem::Int(i) => Ok(TableKey::SingleRow(*i)),
                _ => Err(KeyError::NotKey),
            },
        },
        Key::Sequence { items, tuple: _ } => {
            if items.len() == 0 {
                return Err(KeyError::EmptySequence);
            }
            match try_extract_column_name(&items[0]) {
                Err(e) => Err(e),
                Ok(Some(_)) => match list_names(items) {
                    Err(e) => Err(e),
                    Ok(n) => Ok(TableKey::MultiColumns(n)),
                },
                Ok(None) => match &items[0] {
                    KeyItem::Int(_) => Ok(TableKey::Rows),
                    _ => Err(KeyError::NeitherRowsNorColumns),
                },
            }
        },
    }
}

// Writing ------------------------------------------------------------------

/// What a key selects on writing.
#[derive(Debug)]
pub enum SetItemKey {
    SingleRow(i64),
    RowSlice,
    SingleColumn(String),
    FancyRows(Vec<i64>),
    MultiColumns(Vec<String>),
    Cell(i64, String),
}

/// What a key selects on writing, with its parts as sequences.
pub enum SetItemView {
    SingleRow(i64),
    RowSlice,
    SingleColumn(Seq<char>),
    FancyRows(Seq<i64>),
    MultiColumns(Seq<Seq<char>>),
    Cell(i64, Seq<char>),
}

impl View for SetItemKey {
    type V = SetItemView;

    open spec fn view(&self) -> SetItemView {
        match *self {
            SetItemKey::SingleRow(i) => SetItemView::SingleRow(i),
            SetItemKey::RowSlice => SetItemView::RowSlice,
            SetItemKey::SingleColumn(s) => SetItemView::SingleColumn(s@),
            SetItemKey::FancyRows(v) => SetItemView::FancyRows(v@),
            SetItemKey::MultiColumns(v) => SetItemView::MultiColumns(texts(v@)),
            SetItemKey::Cell(i, s) => SetItemView::Cell(i, s@),
        }
    }
}

/// The numbers that the first `k` parts of a key are, or the first part that is
/// none.
pub open spec fn ints_listed(items: Seq<KeyItem>, k: nat) -> Result<Seq<i64>, KeyError>
    decreases k,
{
    if k == 0 {
        Ok(Seq::empty())
    } else {
        match ints_listed(items, (k - 1) as nat) {
            Err(e) => Err(e),
            Ok(s) => match items[k - 1] {
                KeyItem::Bool => Err(KeyError::BoolRow),
                KeyItem::Int(i) => Ok(s.push(i)),
                _ => Err(KeyError::MixedRows),
            },
        }
    }
}

proof fn lemma_ints_listed(items: Seq<KeyItem>, m: nat, k: nat)
    requires
        m <= k,
        ints_listed(items, m) is Err,
    ensures
        ints_listed(items, k) == ints_listed(items, m),
    decreases k,
{
    if m < k {
        lemma_ints_listed(items, m, (k - 1) as nat);
    }
}

fn list_ints(items: &Vec<KeyItem>) -> (r: Result<Vec<i64>, KeyError>)
    ensures
        match r {
            Ok(v) => ints_listed(items@, items@.len()) == Ok::<Seq<i64>, KeyError>(v@),
            Err(e) => ints_listed(items@, items@.len()) == Err::<Seq<i64>, KeyError>(e),
        },
{
    let n: usize = items.len();
    let mut out: Vec<i64> = Vec::new();
    let mut i: usize = 0;
    while i < n
        invariant
            i <= n == items@.len(),
            ints_listed(items@, i as nat) == Ok::<Seq<i64>, KeyError>(out@),
        decreases n - i,
    {
        match &items[i] {
            KeyItem::Bool => {
                proof {
                    lemma_ints_listed(items@, (i + 1) as nat, n as nat);
                }
                return Err(KeyError::BoolRow);
            },
            KeyItem::Int(v) => {
                out.push(*v);
            },
            _ => {
                proof {
                    lemma_ints_listed(items@, (i + 1) as nat, n as nat);
                }
                return Err(KeyError::MixedRows);
            },
        }
        i = i + 1;
    }
    Ok(out)
}

/// What a key selects on writing. A pair selects a cell.
pub open spec fn setitem_key(key: Key) -> Result<SetItemView, KeyError> {
    match key {
        Key::Slice => Ok(SetItemView::RowSlice),
        Key::Item(item) => match item_name(item) {
            Err(e) => Err(e),
            Ok(Some(n)) => Ok(SetItemView::SingleColumn(n)),
            Ok(None) => match item {
                KeyItem::Int(i) => Ok(SetItemView::SingleRow(i)),
                _ => Err(KeyError::NotKey),
            },
        },
        Key::Sequence { items, tuple } => if tuple && items@.len() == 2 {
            match item_name(items@[1]) {
                Err(e) => Err(e),
                Ok(name) => match (items@[0], name) {
                    (KeyItem::Int(i), Some(n)) => Ok(SetItemView::Cell(i, n)),
                    _ => Err(KeyError::PairNotCell),
                },
            }
        } else if items@.len() == 0 {
            Err(KeyError::EmptySequence)
        } else {
            match item_name(items@[0]) {
                Err(e) => Err(e),
                Ok(Some(_)) => match names_listed(items@, items@.len()) {
                    Err(e) => Err(e),
                    Ok(n) => Ok(SetItemView::MultiColumns(n)),
                },
                Ok(None) => if items@[0] is Int {
                    match ints_listed(items@, items@.len()) {
                        Err(e) => Err(e),
                        Ok(v) => Ok(SetItemView::FancyRows(v)),
                    }
                } else {
                    Err(KeyError::NeitherRowsNorColumns)
                },
            }
        },
    }
}

/// Says what a key selects on writing.
pub fn classify_setitem_key(key: &Key) -> (r: Result<SetItemKey, KeyError>)
    ensures
        match r {
            Ok(k) => setitem_key(*key) == Ok::<SetItemView, KeyError>(k@),
            Err(e) => setitem_key(*key) == Err::<SetItemView, KeyError>(e),
        },
{
    match key {
        Key::Slice => Ok(SetItemKey::RowSlice),
        Key::Item(item) => match try_extract_column_name(item) {
            Err(e) => Err(e),
            Ok(Some(n)) => Ok(SetItemKey::SingleColumn(n)),
            Ok(None) => match item {
                KeyItem::Int(i) => Ok(SetItemKey::SingleRow(*i)),
                _ => Err(KeyError::NotKey),
            },
        },
        Key::Sequence { items, tuple } => {
            if *tuple && items.len() == 2 {
                return match try_extract_column_name(&items[1]) {
                    Err(e) => Err(e),
                    Ok(Some(n)) => match &items[0] {
                        KeyItem::Int(i) => Ok(SetItemKey::Cell(*i, n)),
                        _ => Err(KeyError::PairNotCell),
                    },
                    Ok(None) => Err(KeyError::PairNotCell),
                };
            }
            if items.len() == 0 {
                return Err(KeyError::EmptySequence);
            }
            match try_extract_column_name(&items[0]) {
                Err(e) => Err(e),
                Ok(Some(_)) => match list_names(items) {
                    Err(e) => Err(e),
                    Ok(n) => Ok(SetItemKey::MultiColumns(n)),
                },
                Ok(None) => match &items[0] {
                    KeyItem::Int(_) => match list_ints(items) {
                        Err(e) => Err(e),
                        Ok(v) => Ok(SetItemKey::FancyRows(v)),
                    },
                    _ => Err(KeyError::NeitherRowsNorColumns),
                },
            }
        },
    }
}

// Rows of a column ---------------------------------------------------------

/// A key of rows.
#[derive(Debug)]
pub enum RowsKey {
    /// The rows from `start` to `stop` in steps of `step`, within the table.
    Slice { start: i64, stop: i64, step: i64 },
    /// One thing, which is not made of others.
    Item(KeyItem),
    /// Things one after the other.
    Sequence(Vec<KeyItem>),
}

/// The rows that the first `k` parts of a key name, or the first part that
/// names none.
pub open spec fn rows_listed(items: Seq<KeyItem>, nrows: usize, k: nat) -> Result<
    Seq<usize>,
    KeyError,
>
    decreases k,
{
    if k == 0 {
        Ok(Seq::empty())
    } else {
        match rows_listed(items, nrows, (k - 1) as nat) {
            Err(e) => Err(e),
            Ok(s) => match items[k - 1] {
                KeyItem::Bool => Err(KeyError::BoolRow),
                KeyItem::Int(index) => match row_at(index, nrows as int) {
                    Some(r) => Ok(s.push(r as usize)),
                    None => Err(KeyError::Row(RowError::OutOfRange { index, nrows })),
                },
                _ => Err(KeyError::MixedRows),
            },
        }
    }
}

proof fn lemma_rows_listed(items: Seq<KeyItem>, nrows: usize, m: nat, k: nat)
    requires
        m <= k,
        rows_listed(items, nrows, m) is Err,
    ensures
        rows_listed(items, nrows, k) == rows_listed(items, nrows, m),
    decreases k,
{
    if m < k {
        lemma_rows_listed(items, nrows, m, (k - 1) as nat);
    }
}

/// The rows that a key names, and whether it is a single number.
pub open spec fn rows_keyed(key: RowsKey, nrows: usize) -> Result<(Seq<usize>, bool), KeyError> {
    match key {
        RowsKey::Slice { start, stop, step } => if step == 0 {
            Err(KeyError::Row(RowError::ZeroStep))
        } else {
            Ok((slice_rows(start as int, stop as int, step as int, nrows as int), false))
        },
        RowsKey::Item(KeyItem::Int(index)) => match row_at(index, nrows as int) {
            Some(r) => Ok((seq![r as usize], true)),
            None => Err(KeyError::Row(RowError::OutOfRange { index, nrows })),
        },
        RowsKey::Item(_) => Err(KeyError::NotRows),
        RowsKey::Sequence(items) => match rows_listed(items@, nrows, items@.len()) {
            Err(e) => Err(e),
            Ok(s) => Ok((s, false)),
        },
    }
}

/// The rows that a key names, in its order, with repetitions.
pub fn resolve_rows_key(key: &RowsKey, nrows: usize) -> (r: Result<(Vec<usize>, bool), KeyError>)
    requires
        nrows <= i64::MAX,
    ensures
        match r {
            Ok((v, single)) => rows_keyed(*key, nrows) == Ok::<(Seq<usize>, bool), KeyError>(
                (v@, single),
            ),
            Err(e) => rows_keyed(*key, nrows) == Err::<(Seq<usize>, bool), KeyError>(e),
        },
{
    match key {
        RowsKey::Slice { start, stop, step } => {
            if *step == 0 {
                return Err(KeyError::Row(RowError::ZeroStep));
            }
            Ok((walk_slice(*start, *stop, *step, nrows), false))
        },
        RowsKey::Item(KeyItem::Int(index)) => match normalize_row_index(*index, nrows) {
            Ok(r) => {
                let v: Vec<usize> = vec![r];
                assert(v@ =~= seq![r]);
                Ok((v, true))
            },
            Err(e) => Err(KeyError::Row(e)),
        },
        RowsKey::Item(_) => Err(KeyError::NotRows),
        RowsKey::Sequence(items) => {
            let n: usize = items.len();
            let mut out: Vec<usize> = Vec::new();
            let mut i: usize = 0;
            while i < n
                invariant
                    i <= n == items@.len(),
                    nrows <= i64::MAX,
                    *key == RowsKey::Sequence(*items),
                    rows_listed(items@, nrows, i as nat) == Ok::<Seq<usize>, KeyError>(out@),
                decreases n - i,
            {
                match &items[i] {
                    KeyItem::Bool => {
                        proof {
                            lemma_rows_listed(items@, nrows, (i + 1) as nat, n as nat);
                        }
                        return Err(KeyError::BoolRow);
                    },
                    KeyItem::Int(index) => match normalize_row_index(*index, nrows) {
                        Ok(r) => {
                            out.push(r);
                        },
                        Err(e) => {
                            proof {
                                lemma_rows_listed(items@, nrows, (i + 1) as nat, n as nat);
                            }
                            return Err(KeyError::Row(e));
                        },
                    },
                    _ => {
                        proof {
                            lemma_rows_listed(items@, nrows, (i + 1) as nat, n as nat);
                        }
                        return Err(KeyError::MixedRows);
                    },
                }
                i = i + 1;
            }
            Ok((out, false))
        },
    }
}

/// Every row that a key names is one of the table.
pub proof fn law_keyed_rows(key: RowsKey, nrows: usize)
    ensures
        rows_keyed(key, nrows) matches Ok((s, single)) ==> {
            &&& forall|i: int| 0 <= i < s.len() ==> s[i] < nrows
            &&& single ==> s.len() == 1
        },
{
    match key {
        RowsKey::Slice { start, stop, step } => {
            crate::rows::lemma_slice_rows(start as int, stop as int, step as int, nrows);
        },
        RowsKey::Sequence(items) => {
            lemma_listed_rows(items@, nrows, items@.len());
        },
        _ => {},
    }
}

proof fn lemma_listed_rows(items: Seq<KeyItem>, nrows: usize, k: nat)
    ensures
        rows_listed(items, nrows, k) matches Ok(s) ==> s.len() == k && forall|i: int|
            0 <= i < s.len() ==> s[i] < nrows,
    decreases k,
{
    if k > 0 {
        lemma_listed_rows(items, nrows, (k - 1) as nat);
    }
}

} // verus!
