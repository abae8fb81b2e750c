//! From the keywords of a header to the columns of a table.

use vstd::prelude::*;

use crate::columns::{
    Column, ColumnView, Descriptor, Letter, ONE_BITS, cell_bytes, cell_bytes_of, column_ok,
    columns_fill, columns_ok, copy_opt_text, descriptor_bytes, descriptor_size, is_integer,
    is_integer_letter, lemma_columns_fill, letter_for, letter_of, opt_dims, opt_text, product,
    product_of, views,
};
use crate::error::HeaderError;
use crate::text::{
    chars_of, decimal, decimal_of, is_ascii_letter, is_letter, parse_usize, parsed, part_of,
    string_of, trim, trimmed,
};

verus! {

/// The keywords of one column, as far as the header holds them. TSCAL and
/// TZERO are the bits of 64-bit floats.
#[derive(Debug)]
pub struct ColumnKeywords {
    pub ttype: Option<String>,
    pub tform: Option<String>,
    pub tdim: Option<String>,
    pub tscal: Option<u64>,
    pub tzero: Option<u64>,
    pub tnull: Option<i64>,
    pub tunit: Option<String>,
}

/// The keywords of a table, as far as the header holds them.
#[derive(Debug)]
pub struct TableKeywords {
    pub naxis1: Option<i64>,
    pub naxis2: Option<i64>,
    pub tfields: Option<i64>,
    pub theap: Option<i64>,
    /// The keywords with the numbers 1, 2 and so on. A column behind the end
    /// of the list has no keywords.
    pub columns: Vec<ColumnKeywords>,
}

/// The keywords of one column, with their texts as sequences.
pub struct KeywordsView {
    pub ttype: Option<Seq<char>>,
    pub tform: Option<Seq<char>>,
    pub tdim: Option<Seq<char>>,
    pub tscal: Option<u64>,
    pub tzero: Option<u64>,
    pub tnull: Option<i64>,
    pub tunit: Option<Seq<char>>,
}

impl View for ColumnKeywords {
    type V = KeywordsView;

    open spec fn view(&self) -> KeywordsView {
        KeywordsView {
            ttype: opt_text(self.ttype),
            tform: opt_text(self.tform),
            tdim: opt_text(self.tdim),
            tscal: self.tscal,
            tzero: self.tzero,
            tnull: self.tnull,
            tunit: opt_text(self.tunit),
        }
    }
}

/// The views of the keywords of all columns.
pub open spec fn keyword_views(k: Seq<ColumnKeywords>) -> Seq<KeywordsView> {
    Seq::new(k.len(), |i: int| k[i]@)
}

// TFORM --------------------------------------------------------------------

/// The pieces of a TFORM: `8A` is 8 and `A`; `1PE(100)` is 1, `P` and `E`.
#[derive(Clone, Copy, PartialEq, Eq, Structural, Debug)]
pub struct Tform {
    pub repeat: usize,
    pub letter: char,
    pub inner: Option<char>,
}

/// How many characters stand before the first ASCII letter.
pub open spec fn before_letter(s: Seq<char>) -> nat
    decreases s.len(),
{
    if s.len() == 0 || is_letter(s[0]) {
        0
    } else {
        1 + before_letter(s.drop_first())
    }
}

fn find_letter(s: &[char]) -> (r: usize)
    ensures
        r == before_letter(s@),
        r <= s@.len(),
{
    let n: usize = s.len();
    let mut i: usize = 0;
    assert(s@.subrange(0, n as int) =~= s@);
    while i < n && !is_ascii_letter(s[i])
        invariant
            i <= n == s@.len(),
            before_letter(s@) == i + before_letter(s@.subrange(i as int, n as int)),
        decreases n - i,
    {
        proof {
            let t = s@.subrange(i as int, n as int);
            assert(t[0] == s@[i as int]);
            assert(t.drop_first() =~= s@.subrange(i + 1, n as int));
        }
        i = i + 1;
    }
    proof {
        let t = s@.subrange(i as int, n as int);
        assert(i < n ==> t[0] == s@[i as int]);
    }
    i
}

/// The element type behind the letter of a descriptor. A hint in brackets may
/// follow it.
pub open spec fn inner_letter(trailing: Seq<char>, column: u64) -> Result<char, HeaderError> {
    let t = trimmed(trailing);
    let after = trimmed(t.drop_first());
    if t.len() == 0 {
        Err(HeaderError::MissingInnerLetter { column })
    } else if !is_letter(t[0]) {
        Err(HeaderError::InnerNotLetter { column, inner: t[0] })
    } else if after.len() > 0 && !(after[0] == '(' && after.last() == ')') {
        Err(HeaderError::InvalidTrailer { column })
    } else {
        Ok(t[0])
    }
}

/// Reads the element type behind the letter of a descriptor.
pub fn parse_variable_inner_letter(trailing: &[char], column: u64) -> (r: Result<char, HeaderError>)
    ensures
        r == inner_letter(trailing@, column),
{
    let t: Vec<char> = trim(trailing);
    if t.len() == 0 {
        return Err(HeaderError::MissingInnerLetter { column });
    }
    let inner: char = t[0];
    if !is_ascii_letter(inner) {
        return Err(HeaderError::InnerNotLetter { column, inner });
    }
    let rest: Vec<char> = part_of(&t, 1, t.len());
    assert(rest@ =~= t@.drop_first());
    let after: Vec<char> = trim(&rest);
    if after.len() > 0 && !(after[0] == '(' && after[after.len() - 1] == ')') {
        return Err(HeaderError::InvalidTrailer { column });
    }
    Ok(inner)
}

/// The pieces of a TFORM: an optional repeat count, a letter, and what the
/// letter asks for behind it.
pub open spec fn tform_pieces(tform: Seq<char>, column: u64) -> Result<Tform, HeaderError> {
    let t = trimmed(tform);
    let i = before_letter(t) as int;
    let digits = t.take(i);
    let trailing = t.skip(i + 1);
    if i == t.len() {
        Err(HeaderError::NoTypeLetter { column })
    } else {
        let repeat = if i == 0 {
            Some(1usize)
        } else {
            parsed(digits)
        };
        match repeat {
            None => Err(HeaderError::RepeatNotInteger { column }),
            Some(repeat) => if t[i] == 'P' || t[i] == 'Q' {
                match inner_letter(trailing, column) {
                    Err(e) => Err(e),
                    Ok(c) => Ok(Tform { repeat, letter: t[i], inner: Some(c) }),
                }
            } else if trimmed(trailing).len() > 0 {
                Err(HeaderError::TrailingModifier { column })
            } else {
                Ok(Tform { repeat, letter: t[i], inner: None })
            },
        }
    }
}

/// Splits a TFORM into its pieces.
pub fn parse_tform(tform: &str, column: u64) -> (r: Result<Tform, HeaderError>)
    ensures
        r == tform_pieces(tform@, column),
{
    let whole: Vec<char> = chars_of(tform);
    let t: Vec<char> = trim(&whole);
    let i: usize = find_letter(&t);
    if i == t.len() {
        return Err(HeaderError::NoTypeLetter { column });
    }
    let letter: char = t[i];
    let digits: Vec<char> = part_of(&t, 0, i);
    let trailing: Vec<char> = part_of(&t, i + 1, t.len());
    assert(digits@ =~= t@.take(i as int));
    assert(trailing@ =~= t@.skip(i + 1));
    let repeat: usize = if i == 0 {
        1
    } else {
        match parse_usize(&digits) {
            Some(v) => v,
            None => {
                return Err(HeaderError::RepeatNotInteger { column });
            },
        }
    };
    if letter == 'P' || letter == 'Q' {
        match parse_variable_inner_letter(&trailing, column) {
            Err(e) => Err(e),
            Ok(c) => Ok(Tform { repeat, letter, inner: Some(c) }),
        }
    } else {
        let rest: Vec<char> = trim(&trailing);
        if rest.len() > 0 {
            return Err(HeaderError::TrailingModifier { column });
        }
        Ok(Tform { repeat, letter, inner: None })
    }
}

// TDIM ---------------------------------------------------------------------

/// The parts of a text between its commas.
pub open spec fn comma_parts(s: Seq<char>) -> Seq<Seq<char>>
    decreases s.len(),
{
    if s.len() == 0 {
        seq![Seq::empty()]
    } else {
        let p = comma_parts(s.drop_last());
        if s.last() == ',' {
            p.push(Seq::empty())
        } else {
            p.drop_last().push(p.last().push(s.last()))
        }
    }
}

/// A text has at least one part.
pub proof fn lemma_comma_parts(s: Seq<char>)
    ensures
        comma_parts(s).len() > 0,
    decreases s.len(),
{
    if s.len() > 0 {
        lemma_comma_parts(s.drop_last());
    }
}

/// The dimensions that the parts of a TDIM spell, or the first of them that
/// spells none.
pub open spec fn dims_of(parts: Seq<Seq<char>>, column: u64) -> Result<Seq<usize>, HeaderError>
    decreases parts.len(),
{
    if parts.len() == 0 {
        Ok(Seq::empty())
    } else {
        let part = (parts.len() - 1) as usize;
        match dims_of(parts.drop_last(), column) {
            Err(e) => Err(e),
            Ok(d) => match parsed(trimmed(parts.last())) {
                None => Err(HeaderError::TdimNotInteger { column, part }),
                Some(n) => if n == 0 {
                    Err(HeaderError::TdimZero { column, part })
                } else {
                    Ok(d.push(n))
                },
            },
        }
    }
}

/// One failing part decides the whole list.
proof fn lemma_dims_prefix(parts: Seq<Seq<char>>, k: int, column: u64)
    requires
        0 <= k <= parts.len(),
        dims_of(parts.take(k), column) is Err,
    ensures
        dims_of(parts, column) == dims_of(parts.take(k), column),
    decreases parts.len(),
{
    if k < parts.len() {
        assert(parts.drop_last().take(k) =~= parts.take(k));
        lemma_dims_prefix(parts.drop_last(), k, column);
    } else {
        assert(parts.take(k) =~= parts);
    }
}

/// Dimensions are positive, and there are as many as parts.
proof fn lemma_dims_positive(parts: Seq<Seq<char>>, column: u64)
    ensures
        dims_of(parts, column) matches Ok(d) ==> d.len() == parts.len() && forall|i: int|
            0 <= i < d.len() ==> d[i] > 0,
    decreases parts.len(),
{
    if parts.len() > 0 {
        lemma_dims_positive(parts.drop_last(), column);
    }
}

/// The dimensions of a TDIM, in the order in which they are written: positive
/// numbers between commas, in round brackets.
pub open spec fn tdim_dims(tdim: Seq<char>, column: u64) -> Result<Seq<usize>, HeaderError> {
    let t = trimmed(tdim);
    if t.len() > 0 && t[0] == '(' && t.last() == ')' {
        dims_of(comma_parts(t.subrange(1, t.len() - 1)), column)
    } else {
        Err(HeaderError::TdimNotParenthesized { column })
    }
}

/// Splits a text at its commas.
pub fn split_commas(s: &[char]) -> (r: Vec<Vec<char>>)
    ensures
        r@.len() == comma_parts(s@).len(),
        forall|i: int| 0 <= i < r@.len() ==> (#[trigger] r@[i])@ == comma_parts(s@)[i],
{
    let n: usize = s.len();
    let mut done: Vec<Vec<char>> = Vec::new();
    let mut last: Vec<char> = Vec::new();
    let mut i: usize = 0;
    assert(s@.take(0) =~= Seq::empty());
    while i < n
        invariant
            i <= n == s@.len(),
            comma_parts(s@.take(i as int)).len() == done@.len() + 1,
            forall|k: int|
                0 <= k < done@.len() ==> (#[trigger] done@[k])@ == comma_parts(
                    s@.take(i as int),
                )[k],
            last@ == comma_parts(s@.take(i as int)).last(),
        decreases n - i,
    {
        let ghost p = comma_parts(s@.take(i as int));
        let ghost q = comma_parts(s@.take(i + 1));
        proof {
            assert(s@.take(i + 1).drop_last() =~= s@.take(i as int));
            assert(s@.take(i + 1).last() == s@[i as int]);
        }
        if s[i] == ',' {
            done.push(last);
            last = Vec::new();
            proof {
                assert(q =~= p.push(Seq::empty()));
                assert forall|k: int| 0 <= k < done@.len() implies (#[trigger] done@[k])@
                    == q[k] by {
                    if k < p.len() - 1 {
                        assert(q[k] == p[k]);
                    }
                }
            }
        } else {
            last.push(s[i]);
            proof {
                assert(q =~= p.drop_last().push(p.last().push(s@[i as int])));
                assert forall|k: int| 0 <= k < done@.len() implies (#[trigger] done@[k])@
                    == q[k] by {
                    assert(q[k] == p[k]);
                }
            }
        }
        i = i + 1;
    }
    assert(s@.take(n as int) =~= s@);
    let ghost p = comma_parts(s@);
    done.push(last);
    assert forall|k: int| 0 <= k < done@.len() implies (#[trigger] done@[k])@ == p[k] by {
        if k == done@.len() - 1 {
            assert(p.last() == p[k]);
        }
    }
    done
}

/// Reads the dimensions of a TDIM.
pub fn parse_tdim(tdim: &str, column: u64) -> (r: Result<Vec<usize>, HeaderError>)
    ensures
        match r {
            Ok(d) => tdim_dims(tdim@, column) == Ok::<Seq<usize>, HeaderError>(d@) && d@.len() > 0
                && forall|i: int| 0 <= i < d@.len() ==> d@[i] > 0,
            Err(e) => tdim_dims(tdim@, column) == Err::<Seq<usize>, HeaderError>(e),
        },
{
    let whole: Vec<char> = chars_of(tdim);
    let t: Vec<char> = trim(&whole);
    let n: usize = t.len();
    if !(n > 0 && t[0] == '(' && t[n - 1] == ')') {
        return Err(HeaderError::TdimNotParenthesized { column });
    }
    assert(n > 1);
    let inside: Vec<char> = part_of(&t, 1, n - 1);
    assert(inside@ =~= t@.subrange(1, n - 1));
    let parts: Vec<Vec<char>> = split_commas(&inside);
    let ghost cp = comma_parts(inside@);
    proof {
        lemma_comma_parts(inside@);
        assert(tdim_dims(tdim@, column) == dims_of(cp, column));
    }
    let m: usize = parts.len();
    let mut dims: Vec<usize> = Vec::new();
    let mut i: usize = 0;
    assert(cp.take(0) =~= Seq::empty());
    while i < m
        invariant
            i <= m == parts@.len() == cp.len(),
            forall|k: int| 0 <= k < m ==> (#[trigger] parts@[k])@ == cp[k],
            dims_of(cp.take(i as int), column) == Ok::<Seq<usize>, HeaderError>(dims@),
            tdim_dims(tdim@, column) == dims_of(cp, column),
        decreases m - i,
    {
        proof {
            assert(cp.take(i + 1).drop_last() =~= cp.take(i as int));
            assert(cp.take(i + 1).last() == parts@[i as int]@);
        }
        let part: Vec<char> = trim(&parts[i]);
        match parse_usize(&part) {
            None => {
                proof {
                    lemma_dims_prefix(cp, i + 1, column);
                }
                return Err(HeaderError::TdimNotInteger { column, part: i });
            },
            Some(d) => {
                if d == 0 {
                    proof {
                        lemma_dims_prefix(cp, i + 1, column);
                    }
                    return Err(HeaderError::TdimZero { column, part: i });
                }
                dims.push(d);
            },
        }
        i = i + 1;
    }
    proof {
        assert(cp.take(m as int) =~= cp);
        lemma_dims_positive(cp, column);
    }
    Ok(dims)
}

// Columns ------------------------------------------------------------------

/// The name of a column without TTYPE.
pub open spec fn default_name(column: u64) -> Seq<char> {
    seq!['C', 'O', 'L'] + decimal(column as nat)
}

fn default_name_of(column: u64) -> (r: String)
    ensures
        r@ == default_name(column),
{
    let mut c: Vec<char> = vec!['C', 'O', 'L'];
    let mut d: Vec<char> = decimal_of(column);
    c.append(&mut d);
    assert(c@ =~= default_name(column));
    string_of(&c)
}

/// The value of an optional keyword, or a default.
pub open spec fn or_else<T>(v: Option<T>, d: T) -> T {
    match v {
        Some(x) => x,
        None => d,
    }
}

/// The column that the keywords with the number `column` describe, where the
/// columns before it end at `offset`.
pub open spec fn column_from(k: KeywordsView, column: u64, offset: usize) -> Result<
    ColumnView,
    HeaderError,
> {
    match k.tform {
        None => Err(HeaderError::MissingTform { column }),
        Some(tform) => match tform_pieces(tform, column) {
            Err(e) => Err(e),
            Ok(t) => match t.inner {
                Some(inner) => if t.repeat != 1 {
                    Err(HeaderError::DescriptorRepeat { column })
                } else {
                    match letter_for(inner) {
                        None => Err(HeaderError::UnsupportedInner { column, inner }),
                        Some(letter) => if k.tdim is Some {
                            Err(HeaderError::DescriptorTdim { column })
                        } else {
                            let kind = if t.letter == 'P' {
                                Descriptor::P
                            } else {
                                Descriptor::Q
                            };
                            Ok(
                                filled(
                                    k,
                                    column,
                                    offset,
                                    letter,
                                    1,
                                    None,
                                    descriptor_size(kind),
                                    Some(kind),
                                ),
                            )
                        },
                    }
                },
                None => match letter_for(t.letter) {
                    None => Err(HeaderError::UnsupportedLetter { column, letter: t.letter }),
                    Some(letter) => {
                        let width = cell_bytes(letter, t.repeat as nat);
                        if width > usize::MAX {
                            Err(HeaderError::WidthOverflow { column })
                        } else {
                            match dims_for(k.tdim, t.repeat, column) {
                                Err(e) => Err(e),
                                Ok(tdim) => Ok(
                                    filled(
                                        k,
                                        column,
                                        offset,
                                        letter,
                                        t.repeat,
                                        tdim,
                                        width as usize,
                                        None,
                                    ),
                                ),
                            }
                        }
                    },
                },
            },
        },
    }
}

/// The dimensions of a fixed-width column. Their product is its repeat count.
pub open spec fn dims_for(tdim: Option<Seq<char>>, repeat: usize, column: u64) -> Result<
    Option<Seq<usize>>,
    HeaderError,
> {
    match tdim {
        None => Ok(None),
        Some(s) => match tdim_dims(s, column) {
            Err(e) => Err(e),
            Ok(d) => if product(d) > usize::MAX {
                Err(HeaderError::WidthOverflow { column })
            } else if product(d) != repeat {
                Err(HeaderError::TdimProduct { column, product: product(d) as usize, repeat })
            } else {
                Ok(Some(d))
            },
        },
    }
}

/// A column with the given layout and the other keywords of its number. TNULL
/// counts only for integers.
pub open spec fn filled(
    k: KeywordsView,
    column: u64,
    offset: usize,
    letter: Letter,
    repeat: usize,
    tdim: Option<Seq<usize>>,
    width: usize,
    kind: Option<Descriptor>,
) -> ColumnView {
    ColumnView {
        name: or_else(k.ttype, default_name(column)),
        letter,
        repeat,
        tdim,
        byte_offset: offset,
        byte_width: width,
        var_kind: kind,
        tscal: or_else(k.tscal, ONE_BITS),
        tzero: or_else(k.tzero, 0),
        tnull: if is_integer(letter) {
            k.tnull
        } else {
            None
        },
        tunit: k.tunit,
    }
}

fn fill_column(
    k: &ColumnKeywords,
    column: u64,
    offset: usize,
    letter: Letter,
    repeat: usize,
    tdim: Option<Vec<usize>>,
    width: usize,
    kind: Option<Descriptor>,
) -> (r: Column)
    ensures
        r@ == filled(k@, column, offset, letter, repeat, opt_dims(tdim), width, kind),
{
    let name: String = match &k.ttype {
        Some(s) => s.clone(),
        None => default_name_of(column),
    };
    let tscal: u64 = match k.tscal {
        Some(v) => v,
        None => ONE_BITS,
    };
    let tzero: u64 = match k.tzero {
        Some(v) => v,
        None => 0,
    };
    let tnull: Option<i64> = if is_integer_letter(letter) {
        k.tnull
    } else {
        None
    };
    Column {
        name,
        letter,
        repeat,
        tdim,
        byte_offset: offset,
        byte_width: width,
        var_kind: kind,
        tscal,
        tzero,
        tnull,
        tunit: copy_opt_text(&k.tunit),
    }
}

fn parse_dims(tdim: &Option<String>, repeat: usize, column: u64) -> (r: Result<
    Option<Vec<usize>>,
    HeaderError,
>)
    ensures
        match r {
            Ok(d) => dims_for(opt_text(*tdim), repeat, column) == Ok::<
                Option<Seq<usize>>,
                HeaderError,
            >(opt_dims(d)),
            Err(e) => dims_for(opt_text(*tdim), repeat, column) == Err::<
                Option<Seq<usize>>,
                HeaderError,
            >(e),
        },
{
    match tdim {
        None => Ok(None),
        Some(s) => match parse_tdim(s.as_str(), column) {
            Err(e) => Err(e),
            Ok(d) => match product_of(&d) {
                None => Err(HeaderError::WidthOverflow { column }),
                Some(p) => if p != repeat {
                    Err(HeaderError::TdimProduct { column, product: p, repeat })
                } else {
                    Ok(Some(d))
                },
            },
        },
    }
}

/// Reads one column.
pub fn parse_column(k: &ColumnKeywords, column: u64, offset: usize) -> (r: Result<
    Column,
    HeaderError,
>)
    ensures
        match r {
            Ok(c) => column_from(k@, column, offset) == Ok::<ColumnView, HeaderError>(c@),
            Err(e) => column_from(k@, column, offset) == Err::<ColumnView, HeaderError>(e),
        },
{
    let tform: &String = match &k.tform {
        Some(s) => s,
        None => {
            return Err(HeaderError::MissingTform { column });
        },
    };
    let t: Tform = match parse_tform(tform.as_str(), column) {
        Ok(t) => t,
        Err(e) => {
            return Err(e);
        },
    };
    match t.inner {
        Some(inner) => {
            if t.repeat != 1 {
                return Err(HeaderError::DescriptorRepeat { column });
            }
            let letter: Letter = match letter_of(inner) {
                Some(l) => l,
                None => {
                    return Err(HeaderError::UnsupportedInner { column, inner });
                },
            };
            if k.tdim.is_some() {
                return Err(HeaderError::DescriptorTdim { column });
            }
            let kind: Descriptor = if t.letter == 'P' {
                Descriptor::P
            } else {
                Descriptor::Q
            };
            let width: usize = descriptor_bytes(kind);
            Ok(fill_column(k, column, offset, letter, 1, None, width, Some(kind)))
        },
        None => {
            let letter: Letter = match letter_of(t.letter) {
                Some(l) => l,
                None => {
                    return Err(HeaderError::UnsupportedLetter { column, letter: t.letter });
                },
            };
            let width: usize = match cell_bytes_of(letter, t.repeat) {
                Some(w) => w,
                None => {
                    return Err(HeaderError::WidthOverflow { column });
                },
            };
            match parse_dims(&k.tdim, t.repeat, column) {
                Err(e) => Err(e),
                Ok(tdim) => Ok(
                    fill_column(k, column, offset, letter, t.repeat, tdim, width, None),
                ),
            }
        },
    }
}

/// The first `n` columns, one behind the other from the start of the row, or
/// the first error among them.
pub open spec fn columns_from(k: Seq<KeywordsView>, n: nat) -> Result<Seq<ColumnView>, HeaderError>
    decreases n,
{
    if n == 0 {
        Ok(Seq::empty())
    } else {
        match columns_from(k, (n - 1) as nat) {
            Err(e) => Err(e),
            Ok(cols) => if n > k.len() {
                Err(HeaderError::MissingTform { column: n as u64 })
            } else {
                match column_from(k[n - 1], n as u64, row_end(cols) as usize) {
                    Err(e) => Err(e),
                    Ok(c) => if row_end(cols) + c.byte_width > usize::MAX {
                        Err(HeaderError::WidthOverflow { column: n as u64 })
                    } else {
                        Ok(cols.push(c))
                    },
                }
            },
        }
    }
}

/// Where the last column ends.
pub open spec fn row_end(cols: Seq<ColumnView>) -> int {
    if cols.len() == 0 {
        0
    } else {
        cols.last().byte_offset + cols.last().byte_width
    }
}

/// The columns of a table: as many as TFIELDS says, as wide together as NAXIS1
/// says.
pub open spec fn table_columns(t: TableKeywords) -> Result<Seq<ColumnView>, HeaderError> {
    match t.tfields {
        None => Err(HeaderError::MissingTfields),
        Some(n) => if n < 0 {
            Err(HeaderError::NegativeTfields { tfields: n })
        } else {
            match columns_from(keyword_views(t.columns@), n as nat) {
                Err(e) => Err(e),
                Ok(cols) => {
                    let naxis1 = or_else(t.naxis1, 0i64);
                    if row_end(cols) != naxis1 {
                        Err(HeaderError::RowWidth { width: row_end(cols) as usize, naxis1 })
                    } else {
                        Ok(cols)
                    }
                },
            }
        },
    }
}

/// The error of a shorter list is the error of the longer one.
proof fn lemma_columns_prefix(k: Seq<KeywordsView>, m: nat, n: nat)
    requires
        m <= n,
        columns_from(k, m) is Err,
    ensures
        columns_from(k, n) == columns_from(k, m),
    decreases n,
{
    if m < n {
        lemma_columns_prefix(k, m, (n - 1) as nat);
    }
}

proof fn lemma_tdim_ok(s: Seq<char>, column: u64)
    ensures
        tdim_dims(s, column) matches Ok(d) ==> d.len() > 0 && forall|i: int|
            0 <= i < d.len() ==> d[i] > 0,
{
    let t = trimmed(s);
    let inside = t.subrange(1, t.len() - 1);
    lemma_comma_parts(inside);
    lemma_dims_positive(comma_parts(inside), column);
}

/// The fields of a column that the keywords describe agree with each other.
pub proof fn lemma_column_ok(k: KeywordsView, column: u64, offset: usize)
    ensures
        column_from(k, column, offset) matches Ok(c) ==> column_ok(c) && c.byte_offset == offset,
{
    if k.tdim is Some {
        lemma_tdim_ok(k.tdim->0, column);
    }
}

/// The columns that the keywords describe follow each other without a gap.
pub proof fn lemma_columns_from(k: Seq<KeywordsView>, n: nat)
    ensures
        columns_from(k, n) matches Ok(cols) ==> {
            &&& cols.len() == n
            &&& columns_ok(cols, row_end(cols))
            &&& 0 <= row_end(cols) <= usize::MAX
        },
    decreases n,
{
    if n > 0 {
        lemma_columns_from(k, (n - 1) as nat);
        if columns_from(k, n) is Ok {
            let prev = columns_from(k, (n - 1) as nat)->Ok_0;
            let cols = columns_from(k, n)->Ok_0;
            lemma_column_ok(k[n - 1], n as u64, row_end(prev) as usize);
            assert(cols.drop_last() =~= prev);
        }
    }
}

/// The columns of a table fill its rows: the first starts at 0, each of the
/// others where the one before it ends, and the last ends at NAXIS1. The
/// fields of each agree with each other.
pub proof fn law_columns_fill_row(t: TableKeywords)
    requires
        table_columns(t) is Ok,
    ensures
        ({
            let cols = table_columns(t)->Ok_0;
            &&& columns_ok(cols, or_else(t.naxis1, 0i64) as int)
            &&& cols.len() == t.tfields->0
            &&& cols.len() > 0 ==> cols[0].byte_offset == 0
            &&& forall|i: int, j: int|
                0 <= i && j == i + 1 && j < cols.len() ==> (#[trigger] cols[j]).byte_offset == (
                #[trigger] cols[i]).byte_offset + cols[i].byte_width
        }),
{
    let cols = table_columns(t)->Ok_0;
    lemma_columns_from(keyword_views(t.columns@), t.tfields->0 as nat);
    lemma_fill_steps(cols, row_end(cols));
}

proof fn lemma_fill_steps(cols: Seq<ColumnView>, width: int)
    requires
        columns_fill(cols, width),
    ensures
        cols.len() > 0 ==> cols[0].byte_offset == 0,
        forall|i: int, j: int|
            0 <= i && j == i + 1 && j < cols.len() ==> (#[trigger] cols[j]).byte_offset == (
            #[trigger] cols[i]).byte_offset + cols[i].byte_width,
    decreases cols.len(),
{
    if cols.len() > 0 {
        let t = cols.drop_last();
        lemma_fill_steps(t, cols.last().byte_offset as int);
        assert(forall|i: int| 0 <= i < t.len() ==> cols[i] == t[i]);
        if t.len() > 0 {
            assert(t.last() == cols[cols.len() - 2]);
        } else {
            assert(columns_fill(t, cols.last().byte_offset as int));
        }
        assert forall|i: int, j: int| 0 <= i && j == i + 1 && j < cols.len() implies (
        #[trigger] cols[j]).byte_offset == (#[trigger] cols[i]).byte_offset
            + cols[i].byte_width by {
            if j < t.len() {
                assert(t[i] == cols[i] && t[j] == cols[j]);
            } else {
                assert(t.last() == cols[i]);
            }
        }
    }
}

/// Reads the columns of a table.
pub fn parse_columns(t: &TableKeywords) -> (r: Result<Vec<Column>, HeaderError>)
    ensures
        match r {
            Ok(cols) => table_columns(*t) == Ok::<Seq<ColumnView>, HeaderError>(views(cols@)),
            Err(e) => table_columns(*t) == Err::<Seq<ColumnView>, HeaderError>(e),
        },
{
    let tfields: i64 = match t.tfields {
        None => {
            return Err(HeaderError::MissingTfields);
        },
        Some(n) => n,
    };
    if tfields < 0 {
        return Err(HeaderError::NegativeTfields { tfields });
    }
    let n: u64 = tfields as u64;
    let ghost k = keyword_views(t.columns@);
    let mut columns: Vec<Column> = Vec::new();
    let mut offset: usize = 0;
    let mut i: u64 = 0;
    assert(views(columns@) =~= Seq::empty());
    while i < n
        invariant
            i <= n == tfields,
            t.tfields == Some(tfields),
            tfields >= 0,
            k == keyword_views(t.columns@),
            columns_from(k, i as nat) == Ok::<Seq<ColumnView>, HeaderError>(views(columns@)),
            columns@.len() == i,
            offset == row_end(views(columns@)),
        decreases n - i,
    {
        let at: usize = columns.len();
        let column: u64 = i + 1;
        proof {
            assert(column as nat == (i + 1) as nat);
        }
        if at >= t.columns.len() {
            proof {
                lemma_columns_prefix(k, column as nat, n as nat);
            }
            return Err(HeaderError::MissingTform { column });
        }
        assert(k[i as int] == t.columns@[at as int]@);
        match parse_column(&t.columns[at], column, offset) {
            Err(e) => {
                proof {
                    lemma_columns_prefix(k, column as nat, n as nat);
                }
                return Err(e);
            },
            Ok(c) => {
                let ghost before = views(columns@);
                proof {
                    lemma_column_ok(k[i as int], column, offset);
                }
                match offset.checked_add(c.byte_width) {
                    None => {
                        proof {
                            lemma_columns_prefix(k, column as nat, n as nat);
                        }
                        return Err(HeaderError::WidthOverflow { column });
                    },
                    Some(end) => {
                        offset = end;
                    },
                }
                columns.push(c);
                assert(views(columns@) =~= before.push(c@));
            },
        }
        i = i + 1;
    }
    let naxis1: i64 = match t.naxis1 {
        Some(v) => v,
        None => 0,
    };
    if naxis1 < 0 || naxis1 as u64 != offset as u64 {
        return Err(HeaderError::RowWidth { width: offset, naxis1 });
    }
    Ok(columns)
}

// The table as a whole -----------------------------------------------------

/// What reading a table needs to know of it.
#[derive(Debug)]
pub struct TableMeta {
    pub columns: Vec<Column>,
    pub nrows: u64,
    pub row_width: u64,
    /// Where the heap starts in the data section.
    pub theap: u64,
}

/// A count from the header: 0 where it is missing or negative.
pub open spec fn count_of(v: Option<i64>) -> u64 {
    match v {
        Some(n) => if n > 0 {
            n as u64
        } else {
            0
        },
        None => 0,
    }
}

/// A count from the header: 0 where it is missing or negative.
pub fn header_count(v: Option<i64>) -> (r: u64)
    ensures
        r == count_of(v),
{
    match v {
        Some(n) => if n > 0 {
            n as u64
        } else {
            0
        },
        None => 0,
    }
}

/// Where the heap starts in the data section: at THEAP where that is positive,
/// else behind the rows. A product beyond 64 bits counts as the largest
/// number.
pub open spec fn heap_base(naxis1: Option<i64>, naxis2: Option<i64>, theap: Option<i64>) -> u64 {
    let rows = count_of(naxis1) * count_of(naxis2);
    if count_of(theap) > 0 {
        count_of(theap)
    } else if rows > u64::MAX {
        u64::MAX
    } else {
        rows as u64
    }
}

/// Where the heap starts in the data section.
pub fn heap_base_in_data(naxis1: Option<i64>, naxis2: Option<i64>, theap: Option<i64>) -> (r: u64)
    ensures
        r == heap_base(naxis1, naxis2, theap),
{
    let start: u64 = header_count(theap);
    if start > 0 {
        start
    } else {
        let width: u64 = header_count(naxis1);
        let rows: u64 = header_count(naxis2);
        match width.checked_mul(rows) {
            Some(v) => v,
            None => u64::MAX,
        }
    }
}

/// Reads what a table is.
pub fn parse_table_meta(t: &TableKeywords) -> (r: Result<TableMeta, HeaderError>)
    ensures
        match r {
            Ok(m) => {
                &&& table_columns(*t) == Ok::<Seq<ColumnView>, HeaderError>(views(m.columns@))
                &&& m.nrows == count_of(t.naxis2)
                &&& m.row_width == count_of(t.naxis1)
                &&& m.theap == heap_base(t.naxis1, t.naxis2, t.theap)
                &&& columns_ok(views(m.columns@), m.row_width as int)
            },
            Err(e) => table_columns(*t) == Err::<Seq<ColumnView>, HeaderError>(e),
        },
{
    match parse_columns(t) {
        Err(e) => Err(e),
        Ok(columns) => {
            proof {
                law_columns_fill_row(*t);
                lemma_columns_fill(views(columns@), or_else(t.naxis1, 0i64) as int);
            }
            Ok(
                TableMeta {
                    columns,
                    nrows: header_count(t.naxis2),
                    row_width: header_count(t.naxis1),
                    theap: heap_base_in_data(t.naxis1, t.naxis2, t.theap),
                },
            )
        },
    }
}

} // verus!
