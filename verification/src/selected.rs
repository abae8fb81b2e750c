//! What keys, names and selections name: rows and columns of a table.

use vstd::prelude::*;

use crate::columns::ColumnView;
use crate::edit::{ColumnKey, Target, insert_index, key_place, key_upper, name_uppers, place_at};
use crate::error::{EditError, KeyError, RowError};
use crate::fields::{
    column_with_key, columns_named, lemma_column_with_key, repeats, request_key, requested_columns,
};
use crate::keys::{
    Key, KeyItem, RowsKey, SetItemView, TableKeyView, ints_listed, item_name, names_listed,
    rows_keyed, rows_listed, setitem_key, table_key,
};
use crate::rows::{
    RowSelector, lemma_without_repeats, row_at, rows_at, selected_rows, slice_left, slice_rows,
    without_repeats,
};
use crate::runs::lemma_kept;
use crate::text::{
    all_digits, ascii_upper_text, decimal, digits_value, first_text, is_digit, is_white,
    lemma_decimal_value, lemma_first_text, parsed, trim_end, trim_start, trimmed, unsigned_digits,
    uppercase,
};
use crate::values::lemma_ascii;

verus! {

// Places -------------------------------------------------------------------

/// Whether an index names a place among `n`: its own where it is not negative,
/// and else the one that it counts from the end.
pub open spec fn names_place(index: i64, n: int, place: int) -> bool {
    0 <= place < n && (place == index || place == index + n) && (index < 0 <==> place != index)
}

/// An index names the place that it counts, from the start or from the end, and
/// none beyond.
pub proof fn law_index(index: i64, n: int)
    requires
        0 <= n,
    ensures
        match row_at(index, n) {
            Some(r) => names_place(index, n, r),
            None => index >= n || index < -n,
        },
        place_at(index, n) == row_at(index, n),
{
}

// Slices -------------------------------------------------------------------

/// Whether a slice holds a row: the row lies before its end, seen in the
/// direction of its step, and in the table.
pub open spec fn slice_reaches(row: int, stop: int, step: int, nrows: int) -> bool {
    0 <= row < nrows && (if step > 0 {
        row < stop
    } else {
        row > stop
    })
}

/// A slice is the rows from its start on, a step apart, as long as they lie
/// before its end: each of them, and no more.
pub proof fn law_slice(start: int, stop: int, step: int, nrows: usize)
    requires
        step != 0,
    ensures
        ({
            let s = slice_rows(start, stop, step, nrows as int);
            &&& forall|k: int|
                0 <= k < s.len() ==> (#[trigger] s[k]) == start + k * step && slice_reaches(
                    s[k] as int,
                    stop,
                    step,
                    nrows as int,
                )
            &&& !slice_reaches(start + s.len() * step, stop, step, nrows as int)
        }),
    decreases slice_left(start, stop, step),
{
    let s = slice_rows(start, stop, step, nrows as int);
    if slice_reaches(start, stop, step, nrows as int) {
        let t = slice_rows(start + step, stop, step, nrows as int);
        law_slice(start + step, stop, step, nrows);
        assert forall|k: int| 0 <= k < s.len() implies (#[trigger] s[k]) == start + k * step
            && slice_reaches(s[k] as int, stop, step, nrows as int) by {
            if k > 0 {
                assert(s[k] == t[k - 1]);
                assert((k - 1) * step + step == k * step) by (nonlinear_arith);
            } else {
                assert(k * step == 0) by (nonlinear_arith)
                    requires
                        k == 0,
                ;
            }
        }
        let n = t.len() as int;
        assert(n * step + step == (n + 1) * step) by (nonlinear_arith);
    } else {
        assert(0 * step == 0) by (nonlinear_arith);
    }
}

// Lists --------------------------------------------------------------------

/// A list of indices is the rows that they name, in its order; an index that
/// names none is refused, the first of them.
pub proof fn law_list(list: Seq<i64>, nrows: usize)
    ensures
        match rows_at(list, nrows) {
            Ok(s) => s.len() == list.len() && forall|k: int|
                0 <= k < s.len() ==> names_place(list[k], nrows as int, #[trigger] s[k] as int),
            Err(e) => exists|k: int|
                0 <= k < list.len() && e == (RowError::OutOfRange {
                    index: #[trigger] list[k],
                    nrows,
                }) && (list[k] >= nrows || list[k] < -nrows) && forall|j: int|
                    0 <= j < k ==> -nrows <= #[trigger] list[j] < nrows,
        },
    decreases list.len(),
{
    if list.len() > 0 {
        let p = list.drop_last();
        let n = p.len() as int;
        law_list(p, nrows);
        law_index(list.last(), nrows as int);
        assert(forall|k: int| 0 <= k < p.len() ==> p[k] == list[k]);
        match rows_at(p, nrows) {
            Err(e) => {
                let k = choose|k: int|
                    0 <= k < p.len() && e == (RowError::OutOfRange {
                        index: #[trigger] p[k],
                        nrows,
                    }) && (p[k] >= nrows || p[k] < -nrows) && forall|j: int|
                        0 <= j < k ==> -nrows <= #[trigger] p[j] < nrows;
                assert(list[k] == p[k]);
            },
            Ok(s) => {
                if rows_at(list, nrows) is Err {
                    assert forall|j: int| 0 <= j < n implies -nrows <= #[trigger] list[j]
                        < nrows by {
                        assert(names_place(p[j], nrows as int, s[j] as int));
                    }
                    assert(list[n] == list.last());
                }
            },
        }
    }
}

/// Whether one row stands in a list before another does.
pub open spec fn stands_first(s: Seq<usize>, a: usize, b: usize) -> bool {
    exists|p: int|
        0 <= p < s.len() && #[trigger] s[p] == a && forall|q: int| 0 <= q <= p ==> s[q] != b
}

proof fn lemma_first_order(s: Seq<usize>)
    ensures
        ({
            let u = without_repeats(s);
            forall|i: int, j: int| 0 <= i < j < u.len() ==> stands_first(s, u[i], u[j])
        }),
    decreases s.len(),
{
    if s.len() > 0 {
        let p = s.drop_last();
        let t = without_repeats(p);
        let u = without_repeats(s);
        lemma_first_order(p);
        lemma_without_repeats(p);
        assert forall|i: int, j: int| 0 <= i < j < u.len() implies stands_first(s, u[i], u[j]) by {
            assert(u[i] == t[i]);
            if j < t.len() {
                assert(stands_first(p, t[i], t[j]));
                let q = choose|q: int|
                    0 <= q < p.len() && #[trigger] p[q] == t[i] && forall|r: int|
                        0 <= r <= q ==> p[r] != t[j];
                assert(s[q] == p[q]);
                assert forall|r: int| 0 <= r <= q implies s[r] != u[j] by {
                    assert(p[r] == s[r]);
                }
            } else {
                assert(t.contains(t[i]));
                assert(p.contains(t[i]));
                let q = choose|q: int| 0 <= q < p.len() && p[q] == t[i];
                assert(s[q] == t[i]);
                assert forall|r: int| 0 <= r <= q implies s[r] != u[j] by {
                    assert(p[r] == s[r]);
                    if p[r] == u[j] {
                        assert(p.contains(u[j]));
                        assert(t.contains(u[j]));
                    }
                }
            }
        }
    }
}

/// Without its repetitions a list has the same rows, each once, in the order in
/// which they first come.
pub proof fn law_without_repeats(s: Seq<usize>)
    ensures
        ({
            let u = without_repeats(s);
            &&& forall|x: usize| u.contains(x) <==> s.contains(x)
            &&& forall|i: int, j: int| 0 <= i < j < u.len() ==> u[i] != u[j]
            &&& forall|i: int, j: int| 0 <= i < j < u.len() ==> stands_first(s, u[i], u[j])
        }),
{
    lemma_without_repeats(s);
    lemma_first_order(s);
}

/// What a selection of rows is: the rows of its slice or of its list, without
/// repetitions. A step of zero is refused, and so is a selection of no rows, but
/// for all rows of a table without any.
pub proof fn law_selection(sel: RowSelector, nrows: usize)
    ensures
        match sel {
            RowSelector::Slice { start, stop, step } => if step == 0 {
                selected_rows(sel, nrows) == Err::<Seq<usize>, RowError>(RowError::ZeroStep)
            } else {
                let s = slice_rows(start as int, stop as int, step as int, nrows as int);
                if s.len() == 0 && !(nrows == 0 && start == 0 && stop == 0 && step == 1) {
                    selected_rows(sel, nrows) == Err::<Seq<usize>, RowError>(RowError::NoRows)
                } else {
                    selected_rows(sel, nrows) == Ok::<Seq<usize>, RowError>(s)
                }
            },
            RowSelector::List(list) => match rows_at(list@, nrows) {
                Err(e) => selected_rows(sel, nrows) == Err::<Seq<usize>, RowError>(e),
                Ok(s) => if s.len() == 0 {
                    selected_rows(sel, nrows) == Err::<Seq<usize>, RowError>(RowError::NoRows)
                } else {
                    selected_rows(sel, nrows) == Ok::<Seq<usize>, RowError>(without_repeats(s))
                },
            },
        },
{
    if let RowSelector::Slice { start, stop, step } = sel {
        if step != 0 {
            let s = slice_rows(start as int, stop as int, step as int, nrows as int);
            law_slice(start as int, stop as int, step as int, nrows);
            assert forall|i: int, j: int| 0 <= i < j < s.len() implies s[i] != s[j] by {
                let d = step as int;
                assert(i * d != j * d) by (nonlinear_arith)
                    requires
                        i < j,
                        d != 0,
                ;
            }
            lemma_kept(s);
        }
    }
}

// Texts --------------------------------------------------------------------

/// Whether two characters are the same but for the case of a letter of ASCII.
pub open spec fn same_letter(a: char, b: char) -> bool {
    ||| a == b
    ||| 'a' <= a <= 'z' && b as int == a as int - 32
    ||| 'a' <= b <= 'z' && a as int == b as int - 32
}

/// Whether two texts are the same but for the case of letters of ASCII.
pub open spec fn same_letters(a: Seq<char>, b: Seq<char>) -> bool {
    a.len() == b.len() && forall|i: int| 0 <= i < a.len() ==> same_letter(#[trigger] a[i], b[i])
}

/// Texts in capitals are the same where the texts are, but for the case of their
/// letters.
pub proof fn law_capitals(a: Seq<char>, b: Seq<char>)
    ensures
        ascii_upper_text(a) == ascii_upper_text(b) <==> same_letters(a, b),
        same_letters(a, ascii_upper_text(a)),
{
    let x = ascii_upper_text(a);
    let y = ascii_upper_text(b);
    if x == y {
        assert(x.len() == y.len());
        assert forall|i: int| 0 <= i < a.len() implies same_letter(#[trigger] a[i], b[i]) by {
            assert(x[i] == y[i]);
        }
    }
    if same_letters(a, b) {
        assert forall|i: int| 0 <= i < a.len() implies x[i] == y[i] by {
            assert(same_letter(a[i], b[i]));
        }
        assert(x =~= y);
    }
    assert forall|i: int| 0 <= i < a.len() implies same_letter(#[trigger] a[i], x[i]) by {}
}

/// Whether all characters of a text are white space.
pub open spec fn all_white(s: Seq<char>) -> bool {
    forall|i: int| 0 <= i < s.len() ==> is_white(#[trigger] s[i])
}

/// A trimmed text is the text without the white space at its two ends: what is
/// cut off is white space, and what stays neither starts nor ends with any.
/// Spaces, tabs and ends of lines are white, and the characters that are printed
/// are not.
pub proof fn law_trimmed(s: Seq<char>)
    ensures
        exists|a: int, b: int|
            0 <= a <= b <= s.len() && #[trigger] s.subrange(a, b) == trimmed(s) && all_white(
                s.take(a),
            ) && all_white(s.skip(b)),
        trimmed(s).len() > 0 ==> !is_white(trimmed(s)[0]) && !is_white(trimmed(s).last()),
        is_white(' ') && is_white('\t') && is_white('\n') && is_white('\r'),
        forall|c: char| '!' <= c <= '~' ==> !is_white(c),
{
    let (t, a) = lemma_trim_start(s);
    let e = lemma_trim_end(t);
    let b = a + e;
    assert(s.subrange(a, b) =~= trimmed(s));
    assert forall|i: int| 0 <= i < s.skip(b).len() implies is_white(#[trigger] s.skip(b)[i]) by {
        assert(s.skip(b)[i] == t[e + i]);
    }
    if trimmed(s).len() > 0 {
        assert(trimmed(s)[0] == t[0]);
    }
}

proof fn lemma_trim_start(s: Seq<char>) -> (r: (Seq<char>, int))
    ensures
        r.0 == trim_start(s),
        0 <= r.1 <= s.len(),
        r.0 == s.skip(r.1),
        all_white(s.take(r.1)),
        r.0.len() > 0 ==> !is_white(r.0[0]),
    decreases s.len(),
{
    if s.len() > 0 && is_white(s[0]) {
        let (t, a) = lemma_trim_start(s.drop_first());
        assert(s.skip(a + 1) =~= t);
        assert forall|i: int| 0 <= i < a + 1 implies is_white(#[trigger] s.take(a + 1)[i]) by {
            if i > 0 {
                assert(s.drop_first().take(a)[i - 1] == s[i]);
            }
        }
        (t, a + 1)
    } else {
        assert(s.skip(0) =~= s);
        (s, 0)
    }
}

proof fn lemma_trim_end(s: Seq<char>) -> (e: int)
    ensures
        0 <= e <= s.len(),
        trim_end(s) == s.take(e),
        forall|i: int| e <= i < s.len() ==> is_white(#[trigger] s[i]),
        e > 0 ==> !is_white(s[e - 1]),
    decreases s.len(),
{
    if s.len() > 0 && is_white(s.last()) {
        let p = s.drop_last();
        let e = lemma_trim_end(p);
        assert(p.take(e) =~= s.take(e));
        assert forall|i: int| e <= i < s.len() implies is_white(#[trigger] s[i]) by {
            if i < p.len() {
                assert(p[i] == s[i]);
            }
        }
        e
    } else {
        assert(s.take(s.len() as int) =~= s);
        s.len() as int
    }
}

/// Digits spell a number to base ten: one digit spells itself, and a sequence in
/// two parts is the first part, moved up by the length of the second, plus the
/// second. The digits that are written of a number spell it, and none of several
/// is a zero at the start.
pub proof fn law_digits(a: Seq<char>, b: Seq<char>, n: nat)
    requires
        all_digits(b),
    ensures
        digits_value(a + b) == digits_value(a) * power10(b.len()) + digits_value(b),
        b.len() == 1 ==> digits_value(b) == b[0] as int - '0' as int,
        digits_value(decimal(n)) == n,
        all_digits(decimal(n)),
        decimal(n).len() > 1 ==> decimal(n)[0] != '0',
    decreases b.len(),
{
    lemma_decimal_value(n);
    lemma_leading_digit(n);
    if b.len() == 1 {
        assert(b.drop_last() =~= Seq::empty());
        assert(is_digit(b[0]));
    }
    if b.len() == 0 {
        assert(a + b =~= a);
        assert(digits_value(a) * 1 == digits_value(a));
    } else {
        let c = b.drop_last();
        assert forall|i: int| 0 <= i < c.len() implies is_digit(#[trigger] c[i]) by {
            assert(c[i] == b[i]);
        }
        law_digits(a, c, n);
        assert((a + b).drop_last() =~= a + c);
        let x = digits_value(a) as int;
        let p = power10(c.len()) as int;
        assert((x * p) * 10 == x * (10 * p)) by (nonlinear_arith);
    }
}

/// Ten to the power of `k`.
pub open spec fn power10(k: nat) -> nat
    decreases k,
{
    if k == 0 {
        1
    } else {
        10 * power10((k - 1) as nat)
    }
}

proof fn lemma_leading_digit(n: nat)
    ensures
        decimal(n).len() > 0,
        n > 0 ==> decimal(n)[0] != '0',
        decimal(n).len() > 1 ==> n >= 10,
    decreases n,
{
    if n >= 10 {
        lemma_leading_digit(n / 10);
        assert(decimal(n)[0] == decimal(n / 10)[0]);
    }
}

/// A text is read as a number where it is digits, at least one, behind a plus
/// sign or none, and the number is within range.
pub proof fn law_parsed(s: Seq<char>)
    ensures
        s.len() > 0 && all_digits(s) && digits_value(s) <= usize::MAX ==> parsed(s) == Some(
            digits_value(s) as usize,
        ),
        parsed(seq!['+'] + s) == (if s.len() > 0 && s[0] == '+' {
            None
        } else {
            parsed(s)
        }),
        s.len() == 0 ==> parsed(s) is None,
        parsed(s) is Some ==> forall|i: int|
            0 < i < s.len() ==> is_digit(#[trigger] s[i]),
        all_digits(s) && digits_value(s) > usize::MAX ==> parsed(s) is None,
{
    let t = seq!['+'] + s;
    assert(t.drop_first() =~= s);
    if s.len() > 0 {
        assert(all_digits(s) ==> is_digit(s[0]));
        if s[0] == '+' {
            assert(!all_digits(s)) by {
                assert(!is_digit(s[0]));
            }
        }
    }
    if parsed(s) is Some {
        let d = unsigned_digits(s);
        assert forall|i: int| 0 < i < s.len() implies is_digit(#[trigger] s[i]) by {
            if s[0] == '+' {
                assert(d[i - 1] == s[i]);
            } else {
                assert(d[i] == s[i]);
            }
        }
    }
}

// Columns ------------------------------------------------------------------

/// Whether a name is asked for a column: it is the name of the column, but for
/// the case of letters and white space around it.
pub open spec fn asks_for(name: Seq<char>, column: Seq<char>) -> bool {
    same_letters(trimmed(name), column)
}

/// A name finds the first column that it asks for, and none only where it asks
/// for none.
pub proof fn law_column_found(cols: Seq<ColumnView>, name: Seq<char>)
    ensures
        match column_with_key(cols, request_key(name)) {
            Some(i) => 0 <= i < cols.len() && asks_for(name, cols[i].name) && forall|j: int|
                0 <= j < i ==> !asks_for(name, (#[trigger] cols[j]).name),
            None => forall|j: int|
                0 <= j < cols.len() ==> !asks_for(name, (#[trigger] cols[j]).name),
        },
{
    lemma_column_with_key(cols, request_key(name));
    assert forall|j: int| 0 <= j < cols.len() implies (asks_for(name, (#[trigger] cols[j]).name)
        <==> ascii_upper_text(cols[j].name) == request_key(name)) by {
        law_capitals(trimmed(name), cols[j].name);
    }
}

/// The columns that are read are those that the names find, in the order of the
/// names; without names they are all. No two names may find one column, and each
/// has to find one.
pub proof fn law_columns_found(cols: Seq<ColumnView>, names: Seq<Seq<char>>)
    ensures
        match requested_columns(cols, names) {
            Ok(places) => names.len() > 0 && places.len() == names.len() && (forall|k: int|
                0 <= k < places.len() ==> column_with_key(cols, request_key(names[k])) == Some(
                    #[trigger] places[k],
                )) && (forall|j: int, k: int|
                0 <= j < k < names.len() ==> !same_letters(
                    trimmed(#[trigger] names[j]),
                    trimmed(#[trigger] names[k]),
                )),
            Err(_) => names.len() == 0 || exists|k: int|
                0 <= k < names.len() && (column_with_key(
                    cols,
                    request_key(#[trigger] names[k]),
                ) is None || exists|j: int|
                    0 <= j < k && same_letters(trimmed(#[trigger] names[j]), trimmed(names[k]))),
        },
{
    if names.len() > 0 {
        lemma_named(cols, names);
    }
}

proof fn lemma_named(cols: Seq<ColumnView>, names: Seq<Seq<char>>)
    ensures
        match columns_named(cols, names) {
            Ok(places) => places.len() == names.len() && (forall|k: int|
                0 <= k < places.len() ==> column_with_key(cols, request_key(names[k])) == Some(
                    #[trigger] places[k],
                )) && (forall|j: int, k: int|
                0 <= j < k < names.len() ==> !same_letters(
                    trimmed(#[trigger] names[j]),
                    trimmed(#[trigger] names[k]),
                )),
            Err(_) => exists|k: int|
                0 <= k < names.len() && (column_with_key(
                    cols,
                    request_key(#[trigger] names[k]),
                ) is None || exists|j: int|
                    0 <= j < k && same_letters(trimmed(#[trigger] names[j]), trimmed(names[k]))),
        },
    decreases names.len(),
{
    if names.len() > 0 {
        let p = names.drop_last();
        let n = p.len() as int;
        lemma_named(cols, p);
        assert(forall|k: int| 0 <= k < n ==> p[k] == names[k]);
        assert(names[n] == names.last());
        if columns_named(cols, p) is Ok {
            assert forall|j: int| 0 <= j < n implies (request_key(#[trigger] names[j])
                == request_key(names.last()) <==> same_letters(
                trimmed(names[j]),
                trimmed(names.last()),
            )) by {
                law_capitals(trimmed(names[j]), trimmed(names.last()));
            }
            if repeats(names) {
                let j = choose|j: int|
                    0 <= j < names.len() - 1 && request_key(#[trigger] names[j]) == request_key(
                        names.last(),
                    );
                assert(same_letters(trimmed(names[j]), trimmed(names[n])));
            } else {
                assert forall|j: int, k: int| 0 <= j < k < names.len() implies !same_letters(
                    trimmed(#[trigger] names[j]),
                    trimmed(#[trigger] names[k]),
                ) by {
                    if k < n {
                        assert(p[j] == names[j] && p[k] == names[k]);
                    }
                }
            }
        } else {
            let k = choose|k: int|
                0 <= k < p.len() && (column_with_key(
                    cols,
                    request_key(#[trigger] p[k]),
                ) is None || exists|j: int|
                    0 <= j < k && same_letters(trimmed(#[trigger] p[j]), trimmed(p[k])));
            assert(names[k] == p[k]);
            if column_with_key(cols, request_key(p[k])) is Some {
                let j = choose|j: int|
                    0 <= j < k && same_letters(trimmed(#[trigger] p[j]), trimmed(p[k]));
                assert(names[j] == p[j]);
            }
        }
    }
}

/// A key of a column names the first column with that name, whatever the case,
/// or the column at that place, counted from the end where it is negative.
pub proof fn law_column_key_named(cols: Seq<ColumnView>, key: ColumnKey)
    ensures
        match key_place(name_uppers(cols), key, key_upper(key)) {
            Ok(i) => 0 <= i < cols.len() && match key {
                ColumnKey::Name(s) => uppercase(cols[i].name) == uppercase(s@) && forall|j: int|
                    0 <= j < i ==> uppercase((#[trigger] cols[j]).name) != uppercase(s@),
                ColumnKey::Index(index) => names_place(index, cols.len() as int, i),
                ColumnKey::Other => false,
            },
            Err(e) => match key {
                ColumnKey::Name(s) => e == EditError::UnknownColumn && forall|j: int|
                    0 <= j < cols.len() ==> uppercase((#[trigger] cols[j]).name) != uppercase(s@),
                ColumnKey::Index(index) => index >= cols.len() || index < -cols.len(),
                ColumnKey::Other => e == EditError::NotColumnKey,
            },
        },
{
    let u = name_uppers(cols);
    lemma_first_text(u, key_upper(key));
    assert forall|j: int| 0 <= j < cols.len() implies u[j] == uppercase(
        (#[trigger] cols[j]).name,
    ) by {}
    if let ColumnKey::Index(index) = key {
        law_index(index, cols.len() as int);
    }
}

/// Where a new column goes: to the place that is asked for, behind or before the
/// column that is asked for, or behind the last. Only one of these may be asked
/// for.
pub proof fn law_insert_place(
    uppers: Seq<Seq<char>>,
    t: Target,
    after: Seq<char>,
    before: Seq<char>,
)
    ensures
        ({
            let r = insert_index(uppers, t, after, before);
            match (t.position, t.after, t.before) {
                (None, None, None) => r == Ok::<int, EditError>(uppers.len() as int),
                (Some(p), None, None) => if 0 <= p <= uppers.len() {
                    r == Ok::<int, EditError>(p as int)
                } else {
                    r is Err
                },
                (None, Some(k), None) => match key_place(uppers, k, after) {
                    Ok(i) => r == Ok::<int, EditError>(i + 1),
                    Err(e) => r == Err::<int, EditError>(e),
                },
                (None, None, Some(k)) => r == key_place(uppers, k, before),
                _ => r == Err::<int, EditError>(EditError::TwoTargets),
            }
        }),
{
}

/// The place of a text in a list is the first at which it stands.
pub proof fn law_first_text(s: Seq<Seq<char>>, want: Seq<char>)
    ensures
        match first_text(s, want) {
            Some(i) => 0 <= i < s.len() && s[i] == want && forall|j: int|
                0 <= j < i ==> s[j] != want,
            None => !s.contains(want),
        },
{
    lemma_first_text(s, want);
}

// Keys ---------------------------------------------------------------------

/// Whether a part of a key is a name of a column, and which.
pub open spec fn part_name(item: KeyItem, name: Seq<char>) -> bool {
    match item {
        KeyItem::Text(s) => s@ == name,
        KeyItem::Bytes(b) => b@.len() == name.len() && forall|i: int|
            0 <= i < b@.len() ==> b@[i] < 128 && name[i] as int == #[trigger] b@[i],
        _ => false,
    }
}

proof fn lemma_part_name(item: KeyItem)
    ensures
        match item_name(item) {
            Ok(Some(n)) => part_name(item, n),
            Ok(None) => !(item is Text) && !(item is Bytes),
            Err(e) => e == KeyError::NonAsciiName && item is Bytes,
        },
        item is Text ==> item_name(item) is Ok,
{
    if let KeyItem::Bytes(b) = item {
        lemma_ascii(b@);
    }
}

proof fn lemma_part_names(items: Seq<KeyItem>, k: nat)
    requires
        k <= items.len(),
    ensures
        names_listed(items, k) matches Ok(n) ==> n.len() == k && forall|i: int|
            0 <= i < k ==> part_name(#[trigger] items[i], n[i]),
        (forall|i: int| 0 <= i < k ==> #[trigger] items[i] is Text) ==> names_listed(items, k)
            is Ok,
    decreases k,
{
    if k > 0 {
        lemma_part_names(items, (k - 1) as nat);
        lemma_part_name(items[k - 1]);
    }
}

proof fn lemma_part_ints(items: Seq<KeyItem>, k: nat)
    requires
        k <= items.len(),
    ensures
        ints_listed(items, k) matches Ok(v) ==> v.len() == k && forall|i: int|
            0 <= i < k ==> #[trigger] items[i] == KeyItem::Int(v[i]),
        (forall|i: int| 0 <= i < k ==> #[trigger] items[i] is Int) ==> ints_listed(items, k) is Ok,
    decreases k,
{
    if k > 0 {
        lemma_part_ints(items, (k - 1) as nat);
    }
}

/// What a key of one part selects: a number a row, and a name a column, on
/// reading and on writing.
pub proof fn law_single_key(item: KeyItem)
    ensures
        match item {
            KeyItem::Int(i) => table_key(Key::Item(item)) == Ok::<TableKeyView, KeyError>(
                TableKeyView::SingleRow(i),
            ) && setitem_key(Key::Item(item)) == Ok::<SetItemView, KeyError>(
                SetItemView::SingleRow(i),
            ),
            KeyItem::Text(s) => table_key(Key::Item(item)) == Ok::<TableKeyView, KeyError>(
                TableKeyView::SingleColumn(s@),
            ) && setitem_key(Key::Item(item)) == Ok::<SetItemView, KeyError>(
                SetItemView::SingleColumn(s@),
            ),
            KeyItem::Bytes(b) => (table_key(Key::Item(item)) matches Ok(v) ==> (v matches
                TableKeyView::SingleColumn(n) && part_name(item, n))) && (setitem_key(
                Key::Item(item),
            ) matches Ok(v) ==> (v matches SetItemView::SingleColumn(n) && part_name(item, n))),
            _ => table_key(Key::Item(item)) is Err && setitem_key(Key::Item(item)) is Err,
        },
        table_key(Key::Slice) == Ok::<TableKeyView, KeyError>(TableKeyView::Rows),
        setitem_key(Key::Slice) == Ok::<SetItemView, KeyError>(SetItemView::RowSlice),
{
    lemma_part_name(item);
}

/// What a key of several parts selects on writing: a pair of a number and a name
/// a cell, numbers rows, and names columns, each in the order of the parts. What
/// a key of several parts is said to select, its parts are.
pub proof fn law_sequence_key(items: Vec<KeyItem>, tuple: bool)
    ensures
        ({
            let pair = tuple && items@.len() == 2;
            let ints = items@.len() > 0 && forall|i: int|
                0 <= i < items@.len() ==> #[trigger] items@[i] is Int;
            let words = items@.len() > 0 && forall|i: int|
                0 <= i < items@.len() ==> #[trigger] items@[i] is Text;
            &&& ints && !pair ==> (setitem_key(Key::Sequence { items, tuple }) matches Ok(v)
                && v is FancyRows)
            &&& words && !pair ==> (setitem_key(Key::Sequence { items, tuple }) matches Ok(v)
                && v is MultiColumns)
            &&& pair && items@[0] is Int && items@[1] is Text ==> (setitem_key(
                Key::Sequence { items, tuple },
            ) matches Ok(v) && v is Cell)
            &&& ints ==> table_key(Key::Sequence { items, tuple }) == Ok::<TableKeyView, KeyError>(
                TableKeyView::Rows,
            )
            &&& words ==> (table_key(Key::Sequence { items, tuple }) matches Ok(v) && v
                is MultiColumns)
            &&& match setitem_key(Key::Sequence { items, tuple }) {
                Ok(SetItemView::FancyRows(v)) => v.len() == items@.len() && forall|i: int|
                    0 <= i < v.len() ==> #[trigger] items@[i] == KeyItem::Int(v[i]),
                Ok(SetItemView::MultiColumns(n)) => n.len() == items@.len() && forall|i: int|
                    0 <= i < n.len() ==> part_name(#[trigger] items@[i], n[i]),
                Ok(SetItemView::Cell(i, n)) => pair && items@[0] == KeyItem::Int(i) && part_name(
                    items@[1],
                    n,
                ),
                Ok(_) => false,
                Err(_) => true,
            }
            &&& match table_key(Key::Sequence { items, tuple }) {
                Ok(TableKeyView::MultiColumns(n)) => n.len() == items@.len() && forall|i: int|
                    0 <= i < n.len() ==> part_name(#[trigger] items@[i], n[i]),
                Ok(TableKeyView::Rows) => items@.len() > 0 && items@[0] is Int,
                Ok(_) => false,
                Err(_) => true,
            }
        }),
{
    lemma_part_names(items@, items@.len());
    lemma_part_ints(items@, items@.len());
    if items@.len() > 0 {
        lemma_part_name(items@[0]);
    }
    if items@.len() > 1 {
        lemma_part_name(items@[1]);
    }
}

/// The rows that a key names: those of its slice, the one of its number, or those
/// of its numbers in their order, with repetitions.
pub proof fn law_rows_of_key(key: RowsKey, nrows: usize)
    ensures
        match rows_keyed(key, nrows) {
            Ok((s, single)) => match key {
                RowsKey::Slice { start, stop, step } => !single && step != 0 && s == slice_rows(
                    start as int,
                    stop as int,
                    step as int,
                    nrows as int,
                ),
                RowsKey::Item(KeyItem::Int(i)) => single && s.len() == 1 && names_place(
                    i,
                    nrows as int,
                    s[0] as int,
                ),
                RowsKey::Item(_) => false,
                RowsKey::Sequence(items) => !single && s.len() == items@.len() && forall|k: int|
                    0 <= k < s.len() ==> (#[trigger] items@[k] matches KeyItem::Int(i)
                        && names_place(i, nrows as int, s[k] as int)),
            },
            Err(_) => match key {
                RowsKey::Slice { start, stop, step } => step == 0,
                RowsKey::Item(KeyItem::Int(i)) => i >= nrows || i < -nrows,
                RowsKey::Item(_) => true,
                RowsKey::Sequence(items) => exists|k: int|
                    0 <= k < items@.len() && (#[trigger] items@[k] matches KeyItem::Int(i) ==> i
                        >= nrows || i < -nrows),
            },
        },
{
    match key {
        RowsKey::Item(KeyItem::Int(i)) => {
            law_index(i, nrows as int);
        },
        RowsKey::Sequence(items) => {
            lemma_rows_of_parts(items@, nrows, items@.len());
        },
        _ => {},
    }
}

proof fn lemma_rows_of_parts(items: Seq<KeyItem>, nrows: usize, n: nat)
    requires
        n <= items.len(),
    ensures
        match rows_listed(items, nrows, n) {
            Ok(s) => s.len() == n && forall|k: int|
                0 <= k < s.len() ==> (#[trigger] items[k] matches KeyItem::Int(i) && names_place(
                    i,
                    nrows as int,
                    s[k] as int,
                )),
            Err(_) => exists|k: int|
                0 <= k < n && (#[trigger] items[k] matches KeyItem::Int(i) ==> i >= nrows || i
                    < -nrows),
        },
    decreases n,
{
    if n > 0 {
        lemma_rows_of_parts(items, nrows, (n - 1) as nat);
        if let KeyItem::Int(i) = items[n - 1] {
            law_index(i, nrows as int);
        }
    }
}

} // verus!
