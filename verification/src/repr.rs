//! A table in words.

use vstd::prelude::*;

use crate::cards::{byte_len, bytes_of_text};
use crate::columns::{Column, ColumnView, Letter, column_ok, opt_text, views};
use crate::create::joined;
use crate::fields::{NumpyType, cell_shape, field_dtype_and_shape, field_type, type_code};
use crate::keywords::{
    TableKeywords, count_of, header_count, law_columns_fill_row, parse_columns, table_columns,
};
use crate::text::{chars_of, decimal, decimal_of, string_of};

verus! {

/// The code of the elements in the heap. Bits go by their letter.
pub open spec fn inner_text(l: Letter) -> Seq<char> {
    match l {
        Letter::L => seq!['?'],
        Letter::B => seq!['u', '1'],
        Letter::I => seq!['i', '2'],
        Letter::J => seq!['i', '4'],
        Letter::K => seq!['i', '8'],
        Letter::E => seq!['f', '4'],
        Letter::D => seq!['f', '8'],
        Letter::C => seq!['c', '8'],
        Letter::M => seq!['c', '1', '6'],
        Letter::A => seq!['S'],
        Letter::X => seq!['X'],
    }
}

fn inner_chars(l: Letter) -> (r: Vec<char>)
    ensures
        r@ == inner_text(l),
{
    let r: Vec<char> = match l {
        Letter::L => vec!['?'],
        Letter::B => vec!['u', '1'],
        Letter::I => vec!['i', '2'],
        Letter::J => vec!['i', '4'],
        Letter::K => vec!['i', '8'],
        Letter::E => vec!['f', '4'],
        Letter::D => vec!['f', '8'],
        Letter::C => vec!['c', '8'],
        Letter::M => vec!['c', '1', '6'],
        Letter::A => vec!['S'],
        Letter::X => vec!['X'],
    };
    assert(r@ =~= inner_text(l));
    r
}

/// The code of the elements of a column: of what they are read into, where they
/// can be scaled, and else of what is stored.
pub open spec fn column_code(c: ColumnView) -> Seq<char> {
    if c.var_kind is Some {
        inner_text(c.letter)
    } else {
        match field_type(c, true) {
            Some(t) => type_code(t),
            None => type_code(field_type(c, false)->0),
        }
    }
}

/// The shape of the cells of a column in words, where it has one.
pub open spec fn column_shape(c: ColumnView) -> Option<Seq<char>> {
    if c.var_kind is Some {
        Some("array[var]"@)
    } else if cell_shape(c).len() == 0 {
        None
    } else {
        Some("array["@ + joined(cell_shape(c)) + seq![']'])
    }
}

fn joined_chars(d: &Vec<usize>) -> (r: Vec<char>)
    ensures
        r@ == joined(d@),
{
    let n: usize = d.len();
    let mut c: Vec<char> = Vec::new();
    let mut i: usize = 0;
    assert(d@.take(0) =~= Seq::empty());
    assert(c@ =~= joined(d@.take(0)));
    while i < n
        invariant
            i <= n == d@.len(),
            c@ == joined(d@.take(i as int)),
        decreases n - i,
    {
        proof {
            assert(d@.take(i + 1).drop_last() =~= d@.take(i as int));
        }
        if i > 0 {
            c.push(',');
        }
        let mut t: Vec<char> = decimal_of(d[i] as u64);
        c.append(&mut t);
        i = i + 1;
        assert(c@ =~= joined(d@.take(i as int)));
    }
    assert(d@.take(n as int) =~= d@);
    c
}

/// The code of the elements of a column, and the shape of its cells in words.
pub fn column_repr_info(col: &Column) -> (r: (String, Option<String>))
    requires
        column_ok(col@),
    ensures
        r.0@ == column_code(col@),
        opt_text(r.1) == column_shape(col@),
{
    if col.var_kind.is_some() {
        let c: Vec<char> = inner_chars(col.letter);
        return (string_of(&c), Some("array[var]".to_owned()));
    }
    let (t, shape): (NumpyType, Vec<usize>) = match field_dtype_and_shape(col, true) {
        Some(p) => p,
        None => match field_dtype_and_shape(col, false) {
            Some(p) => p,
            None => (NumpyType::Bool, Vec::new()),
        },
    };
    if shape.len() == 0 {
        return (t.code(), None);
    }
    let mut s: Vec<char> = chars_of("array[");
    let mut j: Vec<char> = joined_chars(&shape);
    s.append(&mut j);
    s.push(']');
    assert(s@ =~= "array["@ + joined(cell_shape(col@)) + seq![']']);
    (t.code(), Some(string_of(&s)))
}

/// The bytes of the longest name.
pub open spec fn longest_name(cols: Seq<ColumnView>) -> nat
    decreases cols.len(),
{
    if cols.len() == 0 {
        0
    } else {
        let m = longest_name(cols.drop_last());
        let n = byte_len(cols.last().name);
        if n > m {
            n
        } else {
            m
        }
    }
}

/// A text, filled up with spaces to a width.
pub open spec fn spaced(s: Seq<char>, width: nat) -> Seq<char> {
    if s.len() >= width {
        s
    } else {
        s + Seq::new((width - s.len()) as nat, |i: int| ' ')
    }
}

/// The line of a column.
pub open spec fn column_line(c: ColumnView, width: nat) -> Seq<char> {
    "    "@ + spaced(c.name, width) + column_code(c) + (match column_shape(c) {
        Some(s) => "  "@ + s,
        None => Seq::empty(),
    }) + (match c.tunit {
        Some(u) => "  ("@ + u + seq![')'],
        None => Seq::empty(),
    }) + seq!['\n']
}

/// The lines of columns.
pub open spec fn column_lines(cols: Seq<ColumnView>, width: nat) -> Seq<char>
    decreases cols.len(),
{
    if cols.len() == 0 {
        Seq::empty()
    } else {
        column_lines(cols.drop_last(), width) + column_line(cols.last(), width)
    }
}

/// A line of a name and a text.
pub open spec fn word_line(label: Seq<char>, text: Seq<char>) -> Seq<char> {
    label + text + seq!['\n']
}

/// A table in words: its file, its number and its name, how many rows it has,
/// and its columns. Names take up four more than the longest.
pub open spec fn table_text(
    file: Seq<char>,
    index: nat,
    extname: Option<Seq<char>>,
    nrows: nat,
    cols: Seq<ColumnView>,
) -> Seq<char> {
    word_line("  file: "@, file) + word_line("  extension: "@, decimal(index)) + word_line(
        "  type: "@,
        "BINARY_TBL"@,
    ) + (match extname {
        Some(n) => word_line("  extname: "@, n),
        None => Seq::empty(),
    }) + word_line("  rows: "@, decimal(nrows)) + word_line("  column info:"@, Seq::empty())
        + column_lines(cols, longest_name(cols) + 4)
}

fn put(out: &mut Vec<char>, s: &str)
    ensures
        final(out)@ == old(out)@ + s@,
{
    let mut c: Vec<char> = chars_of(s);
    out.append(&mut c);
}

fn put_line(out: &mut Vec<char>, label: &str, text: &str)
    ensures
        final(out)@ == old(out)@ + word_line(label@, text@),
{
    put(out, label);
    put(out, text);
    out.push('\n');
    assert(out@ =~= old(out)@ + word_line(label@, text@));
}

fn put_column(out: &mut Vec<char>, col: &Column, width: usize)
    requires
        column_ok(col@),
    ensures
        final(out)@ == old(out)@ + column_line(col@, width as nat),
{
    let ghost start = out@;
    put(out, "    ");
    let name: Vec<char> = chars_of(col.name.as_str());
    let mut padded: Vec<char> = name;
    while padded.len() < width
        invariant
            col.name@.len() <= padded@.len(),
            padded@.len() <= width || padded@.len() == col.name@.len(),
            padded@ == col.name@ + Seq::new(
                (padded@.len() - col.name@.len()) as nat,
                |i: int| ' ',
            ),
        decreases width - padded@.len(),
    {
        padded.push(' ');
        assert(padded@ =~= col.name@ + Seq::new(
            (padded@.len() - col.name@.len()) as nat,
            |i: int| ' ',
        ));
    }
    assert(padded@ =~= spaced(col.name@, width as nat));
    out.append(&mut padded);
    let (code, shape): (String, Option<String>) = column_repr_info(col);
    put(out, code.as_str());
    match &shape {
        Some(s) => {
            put(out, "  ");
            put(out, s.as_str());
        },
        None => {},
    }
    match &col.tunit {
        Some(u) => {
            put(out, "  (");
            put(out, u.as_str());
            out.push(')');
        },
        None => {},
    }
    out.push('\n');
    assert(out@ =~= start + column_line(col@, width as nat));
}

/// Puts a table into words; nothing where its names are too long to be lined
/// up.
pub fn table_repr(
    file: &str,
    index: usize,
    extname: &Option<String>,
    nrows: u64,
    columns: &[Column],
) -> (r: Option<String>)
    requires
        forall|i: int| 0 <= i < columns@.len() ==> column_ok(#[trigger] views(columns@)[i]),
    ensures
        match r {
            Some(s) => s@ == table_text(
                file@,
                index as nat,
                opt_text(*extname),
                nrows as nat,
                views(columns@),
            ),
            None => longest_name(views(columns@)) + 4 > usize::MAX,
        },
        longest_name(views(columns@)) + 4 > usize::MAX ==> r is None,
{
    let n: usize = columns.len();
    let ghost cols = views(columns@);
    let mut longest: usize = 0;
    let mut i: usize = 0;
    assert(cols.take(0) =~= Seq::empty());
    while i < n
        invariant
            i <= n == columns@.len() == cols.len(),
            cols == views(columns@),
            longest == longest_name(cols.take(i as int)),
        decreases n - i,
    {
        assert(cols.take(i + 1).drop_last() =~= cols.take(i as int));
        let b: usize = bytes_of_text(columns[i].name.as_str());
        if b > longest {
            longest = b;
        }
        i = i + 1;
    }
    assert(cols.take(n as int) =~= cols);
    let width: usize = match longest.checked_add(4) {
        Some(w) => w,
        None => {
            return None;
        },
    };
    let mut out: Vec<char> = Vec::new();
    let number: Vec<char> = decimal_of(index as u64);
    let number: String = string_of(&number);
    let rows: Vec<char> = decimal_of(nrows);
    let rows: String = string_of(&rows);
    let ghost head = word_line("  file: "@, file@) + word_line(
        "  extension: "@,
        decimal(index as nat),
    ) + word_line("  type: "@, "BINARY_TBL"@) + (match opt_text(*extname) {
        Some(n) => word_line("  extname: "@, n),
        None => Seq::empty(),
    }) + word_line("  rows: "@, decimal(nrows as nat)) + word_line(
        "  column info:"@,
        Seq::empty(),
    );
    put_line(&mut out, "  file: ", file);
    put_line(&mut out, "  extension: ", number.as_str());
    put_line(&mut out, "  type: ", "BINARY_TBL");
    match extname {
        Some(name) => {
            put_line(&mut out, "  extname: ", name.as_str());
        },
        None => {},
    }
    put_line(&mut out, "  rows: ", rows.as_str());
    put(&mut out, "  column info:");
    out.push('\n');
    assert(out@ =~= head);
    i = 0;
    assert(head + column_lines(cols.take(0), width as nat) =~= head);
    while i < n
        invariant
            i <= n == columns@.len() == cols.len(),
            cols == views(columns@),
            forall|k: int| 0 <= k < columns@.len() ==> column_ok(#[trigger] cols[k]),
            out@ == head + column_lines(cols.take(i as int), width as nat),
        decreases n - i,
    {
        assert(cols.take(i + 1).drop_last() =~= cols.take(i as int));
        assert(cols[i as int] == columns@[i as int]@);
        assert(column_ok(cols[i as int]));
        let ghost was = column_lines(cols.take(i as int), width as nat);
        put_column(&mut out, &columns[i], width);
        assert(head + (was + column_line(cols[i as int], width as nat)) =~= (head + was)
            + column_line(cols[i as int], width as nat));
        i = i + 1;
    }
    assert(cols.take(n as int) =~= cols);
    Some(string_of(&out))
}

/// The columns that a header lets a table be put into words with: none where it
/// describes no table, or where names are too long to be lined up.
pub open spec fn shown_columns(t: TableKeywords) -> Seq<ColumnView> {
    match table_columns(t) {
        Ok(cols) => if longest_name(cols) + 4 <= usize::MAX {
            cols
        } else {
            Seq::empty()
        },
        Err(_) => Seq::empty(),
    }
}

/// Puts what a header says into words, whatever it says.
pub fn header_repr(file: &str, index: usize, extname: &Option<String>, t: &TableKeywords) -> (r:
    String)
    ensures
        r@ == table_text(
            file@,
            index as nat,
            opt_text(*extname),
            count_of(t.naxis2) as nat,
            shown_columns(*t),
        ),
{
    let nrows: u64 = header_count(t.naxis2);
    let none: Vec<Column> = Vec::new();
    proof {
        assert(views(none@) =~= Seq::empty());
    }
    match parse_columns(t) {
        Ok(columns) => {
            proof {
                law_columns_fill_row(*t);
            }
            match table_repr(file, index, extname, nrows, &columns) {
                Some(s) => {
                    return s;
                },
                None => {},
            }
        },
        Err(_) => {},
    }
    match table_repr(file, index, extname, nrows, &none) {
        Some(s) => s,
        None => String::new(),
    }
}

} // verus!
