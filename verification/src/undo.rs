//! Taking a column out undoes putting it in.

use vstd::prelude::*;

use crate::cards::{
    about, all_renumbered, cards_with_column, cards_without_column, column_card, first_keyword,
    keyword, last_end, law_drop_undoes_insert, law_rebuild_undone, law_without_theap,
    lemma_column_number, put_in, regular, renumbered, stem_among, stem_number, stem_text, stems,
};
use crate::columns::{ColumnView, columns_fill, lemma_columns_fill, opt_text};
use crate::create::{WriteColumnView, fixed_column};
use crate::edit::{
    ColumnKey, DeletePlan, Target, delete_plan, insert_index, insert_place, key_upper,
    lemma_pre_width, name_uppers, opt_key_upper, pre_width,
};
use crate::error::{DtypeError, EditError, HeaderError};
use crate::header::{keywords_of, law_fixed_column_reads_back};
use crate::input::ArrayInfo;
use crate::keywords::{
    KeywordsView, TableKeywords, column_from, columns_from, comma_parts, default_name, dims_of,
    keyword_views, law_columns_fill_row, lemma_columns_from, or_else, row_end, table_columns,
    tdim_dims, tform_pieces,
};
use crate::layout::{fits, padded};
use crate::plans::{
    InsertPlan, InsertRequest, TablePlace, main_bytes, planned_insert, request_place,
};
use crate::repack::custom_heap;
use crate::reshape::{column_deleted, column_inserted, law_delete_undoes_insert};
use crate::text::{is_digit, lemma_first_text, lemma_first_text_at, uppercase};

verus! {

// Cards --------------------------------------------------------------------

/// Whether a keyword is one that no card about a column has.
pub open spec fn plain_key(key: Seq<char>) -> bool {
    key.len() > 0 && (key[0] != 'T' || !is_digit(key.last()))
}

proof fn lemma_stem_shape(key: Seq<char>, k: nat)
    requires
        k <= 9,
        stem_among(key, k) is Some,
    ensures
        key.len() > 0,
        key[0] == 'T',
        is_digit(key.last()),
    decreases k,
{
    if k > 0 && stem_among(key, (k - 1) as nat) is Some {
        lemma_stem_shape(key, (k - 1) as nat);
    } else {
        let s = stems()[k - 1];
        reveal_strlit("TTYPE");
        reveal_strlit("TFORM");
        reveal_strlit("TDIM");
        reveal_strlit("TUNIT");
        reveal_strlit("TZERO");
        reveal_strlit("TSCAL");
        reveal_strlit("TNULL");
        reveal_strlit("TDISP");
        reveal_strlit("TBCOL");
        let n = stem_text(s).len() as int;
        assert(stem_number(key, s) is Some);
        assert(key.take(n)[0] == stem_text(s)[0]);
        let d = key.skip(n);
        assert(is_digit(d[d.len() - 1]));
    }
}

/// A card about a column has no such keyword.
proof fn lemma_column_keyword(card: Seq<char>, key: Seq<char>)
    requires
        column_card(card) is Some,
        plain_key(key),
    ensures
        keyword(card) != Some(key),
{
    lemma_stem_shape(keyword(card)->0, 9);
}

proof fn lemma_first_some(cards: Seq<Seq<char>>, key: Seq<char>, i: int)
    requires
        first_keyword(cards, key) == Some(i),
    ensures
        0 <= i < cards.len(),
        keyword(cards[i]) == Some(key),
        forall|k: int| 0 <= k < i ==> keyword(#[trigger] cards[k]) != Some(key),
    decreases cards.len(),
{
    let t = cards.drop_last();
    if first_keyword(t, key) is Some {
        lemma_first_some(t, key, i);
        assert forall|k: int| 0 <= k < i implies keyword(#[trigger] cards[k]) != Some(key) by {
            assert(t[k] == cards[k]);
        }
    } else {
        lemma_first_none(t, key);
        assert forall|k: int| 0 <= k < i implies keyword(#[trigger] cards[k]) != Some(key) by {
            assert(t[k] == cards[k]);
        }
    }
}

proof fn lemma_first_none(cards: Seq<Seq<char>>, key: Seq<char>)
    ensures
        first_keyword(cards, key) is None <==> forall|k: int|
            0 <= k < cards.len() ==> keyword(#[trigger] cards[k]) != Some(key),
    decreases cards.len(),
{
    if cards.len() > 0 {
        let t = cards.drop_last();
        lemma_first_none(t, key);
        if first_keyword(cards, key) is None {
            assert forall|k: int| 0 <= k < cards.len() implies keyword(#[trigger] cards[k])
                != Some(key) by {
                if k < t.len() {
                    assert(t[k] == cards[k]);
                }
            }
        } else if forall|k: int|
            0 <= k < cards.len() ==> keyword(#[trigger] cards[k]) != Some(key) {
            assert forall|k: int| 0 <= k < t.len() implies keyword(#[trigger] t[k])
                != Some(key) by {
                assert(t[k] == cards[k]);
            }
            assert(keyword(cards[cards.len() - 1]) != Some(key));
        }
    }
}

proof fn lemma_first_is(cards: Seq<Seq<char>>, key: Seq<char>, i: int)
    requires
        0 <= i < cards.len(),
        keyword(cards[i]) == Some(key),
        forall|k: int| 0 <= k < i ==> keyword(#[trigger] cards[k]) != Some(key),
    ensures
        first_keyword(cards, key) == Some(i),
{
    match first_keyword(cards, key) {
        Some(j) => {
            lemma_first_some(cards, key, j);
            if j < i {
                assert(keyword(cards[j]) != Some(key));
            } else if i < j {
                assert(keyword(cards[i]) != Some(key));
            }
        },
        None => {
            lemma_first_none(cards, key);
        },
    }
}

proof fn lemma_last_end(cards: Seq<Seq<char>>)
    ensures
        last_end(cards) matches Some(e) ==> 0 <= e < cards.len(),
    decreases cards.len(),
{
    if cards.len() > 0 {
        lemma_last_end(cards.drop_last());
    }
}

/// Renumbering keeps keywords that are no column's.
proof fn lemma_renumbered_keyword(card: Seq<char>, pivot: usize, key: Seq<char>)
    requires
        regular(card),
        plain_key(key),
    ensures
        keyword(renumbered(card, pivot, true)) == Some(key) <==> keyword(card) == Some(key),
        column_card(card) is None ==> renumbered(card, pivot, true) == card,
{
    match column_card(card) {
        None => {},
        Some((s, n)) => {
            lemma_column_keyword(card, key);
            lemma_column_number(card);
            if n >= pivot + 1 {
                law_rebuild_undone(card, s, n, (n + 1) as usize);
                lemma_column_keyword(renumbered(card, pivot, true), key);
            }
        },
    }
}

/// Where the first card with a keyword stands after others have been put in.
spec fn moved_place(i: int, e: int, m: int) -> int {
    if i < e {
        i
    } else {
        i + m
    }
}

proof fn lemma_put_in(
    u: Seq<Seq<char>>,
    e: int,
    new: Seq<Seq<char>>,
    key: Seq<char>,
    i: int,
    card: Seq<char>,
)
    requires
        0 <= e <= u.len(),
        first_keyword(u, key) == Some(i),
        forall|k: int| 0 <= k < new.len() ==> keyword(#[trigger] new[k]) != Some(key),
    ensures
        ({
            let p = put_in(u, e, new);
            let at = moved_place(i, e, new.len() as int);
            &&& first_keyword(p, key) == Some(at)
            &&& p.update(at, card) == put_in(u.update(i, card), e, new)
        }),
{
    let p = put_in(u, e, new);
    let m = new.len() as int;
    let at = moved_place(i, e, m);
    lemma_first_some(u, key, i);
    assert(p[at] == u[i]);
    assert forall|k: int| 0 <= k < at implies keyword(#[trigger] p[k]) != Some(key) by {
        if k < e {
            assert(p[k] == u[k]);
        } else if k < e + m {
            assert(p[k] == new[k - e]);
        } else {
            assert(p[k] == u[k - m]);
        }
    }
    lemma_first_is(p, key, at);
    assert(p.update(at, card) =~= put_in(u.update(i, card), e, new));
}

/// Of cards to which those of a column were added, dropping the column gives back
/// what they were. `tfields` and `naxis1` are those that the cards had, and
/// `tfields1` and `naxis11` those with the column.
pub proof fn law_cards_back(
    cards: Seq<Seq<char>>,
    at: usize,
    new: Seq<Seq<char>>,
    tfields: Seq<char>,
    naxis1: Seq<char>,
    tfields1: Seq<char>,
    naxis11: Seq<char>,
)
    requires
        forall|k: int| 0 <= k < cards.len() ==> regular(#[trigger] cards[k]),
        forall|k: int| 0 <= k < new.len() ==> about(#[trigger] new[k], at),
        first_keyword(cards, "TFIELDS"@) matches Some(i) && cards[i] == tfields,
        first_keyword(cards, "NAXIS1"@) matches Some(j) && cards[j] == naxis1,
        first_keyword(cards, "THEAP"@) is None,
        keyword(tfields1) == Some("TFIELDS"@),
        keyword(naxis11) == Some("NAXIS1"@),
        last_end(all_renumbered(cards, at, true)) is Some,
    ensures
        cards_with_column(cards, at, new, tfields1, naxis11, None) matches Ok(with)
            && cards_without_column(with, at, tfields, naxis1) == Ok::<Seq<Seq<char>>, EditError>(
            cards,
        ),
{
    let tf = "TFIELDS"@;
    let na = "NAXIS1"@;
    let th = "THEAP"@;
    reveal_strlit("TFIELDS");
    reveal_strlit("NAXIS1");
    reveal_strlit("THEAP");
    assert(plain_key(tf) && plain_key(na) && plain_key(th));
    assert(tf[0] != na[0] && th.len() != tf.len() && th[0] != na[0]);
    let i = first_keyword(cards, tf)->0;
    let j = first_keyword(cards, na)->0;
    lemma_first_some(cards, tf, i);
    lemma_first_some(cards, na, j);
    lemma_first_none(cards, th);
    let u = all_renumbered(cards, at, true);
    lemma_last_end(u);
    let e = last_end(u)->0;
    lemma_keywords_of_cards(cards, at, u, tf, i);
    lemma_keywords_of_cards(cards, at, u, na, j);
    assert forall|k: int| 0 <= k < new.len() implies keyword(#[trigger] new[k]) != Some(tf)
        && keyword(new[k]) != Some(na) && keyword(new[k]) != Some(th) by {
        assert(about(new[k], at));
        lemma_column_keyword(new[k], tf);
        lemma_column_keyword(new[k], na);
        lemma_column_keyword(new[k], th);
    }
    // The cards with the new numbers, and with them.
    let cards1 = cards.update(i, tfields1);
    let cards2 = cards1.update(j, naxis11);
    let u1 = u.update(i, tfields1);
    let u2 = u1.update(j, naxis11);
    lemma_put_in(u, e, new, tf, i, tfields1);
    assert(first_keyword(u1, na) == Some(j)) by {
        lemma_first_some(u, na, j);
        lemma_first_some(u, tf, i);
        assert forall|k: int| 0 <= k < j implies keyword(#[trigger] u1[k]) != Some(na) by {
            if k != i {
                assert(u1[k] == u[k]);
            }
        }
        lemma_first_is(u1, na, j);
    }
    lemma_put_in(u1, e, new, na, j, naxis11);
    let p2 = put_in(u2, e, new);
    assert(column_card(tfields1) is None && column_card(naxis11) is None) by {
        if column_card(tfields1) is Some {
            lemma_column_keyword(tfields1, tf);
        }
        if column_card(naxis11) is Some {
            lemma_column_keyword(naxis11, na);
        }
    }
    assert(all_renumbered(cards2, at, true) =~= u2);
    assert forall|k: int| 0 <= k < cards2.len() implies regular(#[trigger] cards2[k]) by {
        if k != i && k != j {
            assert(cards2[k] == cards[k]);
        }
    }
    assert forall|k: int| 0 <= k < p2.len() implies keyword(#[trigger] p2[k]) != Some(th) by {
        let m = new.len() as int;
        if k < e || k >= e + m {
            let q = if k < e {
                k
            } else {
                k - m
            };
            assert(p2[k] == u2[q]);
            if q != i && q != j {
                assert(u2[q] == renumbered(cards[q], at, true));
                assert(regular(cards[q]));
                lemma_renumbered_keyword(cards[q], at, th);
                assert(keyword(cards[q]) != Some(th));
            }
        } else {
            assert(p2[k] == new[k - e]);
        }
    }
    lemma_first_none(p2, th);
    law_without_theap(p2);
    assert(cards_with_column(cards, at, new, tfields1, naxis11, None) == Ok::<
        Seq<Seq<char>>,
        EditError,
    >(p2));
    law_drop_undoes_insert(cards2, at, new, e);
    // The numbers go back.
    assert(first_keyword(cards2, tf) == Some(i)) by {
        assert forall|k: int| 0 <= k < i implies keyword(#[trigger] cards2[k]) != Some(tf) by {
            if k != j {
                assert(cards2[k] == cards[k]);
            }
        }
        assert(i != j);
        lemma_first_is(cards2, tf, i);
    }
    let back = cards2.update(i, tfields);
    assert(first_keyword(back, na) == Some(j)) by {
        assert(i != j);
        assert forall|k: int| 0 <= k < j implies keyword(#[trigger] back[k]) != Some(na) by {
            if k != i {
                assert(back[k] == cards[k]);
            }
        }
        lemma_first_is(back, na, j);
    }
    assert(back.update(j, naxis1) =~= cards);
    law_without_theap(cards);
}

proof fn lemma_keywords_of_cards(
    cards: Seq<Seq<char>>,
    at: usize,
    u: Seq<Seq<char>>,
    key: Seq<char>,
    i: int,
)
    requires
        forall|k: int| 0 <= k < cards.len() ==> regular(#[trigger] cards[k]),
        u == all_renumbered(cards, at, true),
        plain_key(key),
        first_keyword(cards, key) == Some(i),
    ensures
        first_keyword(u, key) == Some(i),
{
    lemma_first_some(cards, key, i);
    assert forall|k: int| 0 <= k < cards.len() implies (keyword(#[trigger] u[k]) == Some(key)
        <==> keyword(cards[k]) == Some(key)) by {
        assert(regular(cards[k]));
        lemma_renumbered_keyword(cards[k], at, key);
    }
    lemma_first_is(u, key, i);
}

// Columns ------------------------------------------------------------------

proof fn lemma_dims_any(parts: Seq<Seq<char>>, a: u64, b: u64)
    requires
        dims_of(parts, a) is Ok,
    ensures
        dims_of(parts, b) == dims_of(parts, a),
    decreases parts.len(),
{
    if parts.len() > 0 {
        lemma_dims_any(parts.drop_last(), a, b);
    }
}

/// A column as it is with another number and at another place: its name is
/// another where the header gives it none.
pub open spec fn moved_column(
    c: ColumnView,
    k: KeywordsView,
    number: u64,
    offset: usize,
) -> ColumnView {
    ColumnView { name: or_else(k.ttype, default_name(number)), byte_offset: offset, ..c }
}

/// What keywords describe rests on their number and on the place of the column
/// in its name and its place alone.
proof fn lemma_column_from_any(k: KeywordsView, a: u64, x: usize, b: u64, y: usize)
    requires
        column_from(k, a, x) is Ok,
    ensures
        column_from(k, b, y) == Ok::<ColumnView, HeaderError>(
            moved_column(column_from(k, a, x)->Ok_0, k, b, y),
        ),
{
    let tform = k.tform->0;
    let t = crate::text::trimmed(tform);
    assert(tform_pieces(tform, b) == tform_pieces(tform, a));
    match k.tdim {
        Some(s) => {
            let d = crate::text::trimmed(s);
            if tdim_dims(s, a) is Ok {
                lemma_dims_any(comma_parts(d.subrange(1, d.len() - 1)), a, b);
            }
        },
        None => {},
    }
}

/// The columns of a table with another one put in at a place. `k` are the
/// keywords of those that there were.
pub open spec fn columns_with(
    cols: Seq<ColumnView>,
    k: Seq<KeywordsView>,
    at: int,
    c: ColumnView,
) -> Seq<ColumnView> {
    Seq::new(
        cols.len() + 1,
        |j: int|
            if j < at {
                cols[j]
            } else if j == at {
                c
            } else {
                moved_column(
                    cols[j - 1],
                    k[j - 1],
                    (j + 1) as u64,
                    (cols[j - 1].byte_offset + c.byte_width) as usize,
                )
            },
    )
}

/// The first columns are those that the first keywords describe.
proof fn lemma_columns_take(k: Seq<KeywordsView>, n: nat, m: nat)
    requires
        columns_from(k, n) is Ok,
        m <= n,
    ensures
        columns_from(k, m) == Ok::<Seq<ColumnView>, HeaderError>(
            columns_from(k, n)->Ok_0.take(m as int),
        ),
        columns_from(k, n)->Ok_0.len() == n,
        m <= k.len(),
    decreases n,
{
    lemma_columns_from(k, n);
    let cols = columns_from(k, n)->Ok_0;
    if m == n {
        assert(cols.take(n as int) =~= cols);
    } else {
        lemma_columns_take(k, (n - 1) as nat, m);
        let t = columns_from(k, (n - 1) as nat)->Ok_0;
        assert(cols.take(m as int) =~= t.take(m as int));
    }
}

proof fn lemma_columns_prefix(k: Seq<KeywordsView>, k2: Seq<KeywordsView>, m: nat)
    requires
        m <= k.len(),
        m <= k2.len(),
        forall|j: int| 0 <= j < m ==> k[j] == k2[j],
    ensures
        columns_from(k, m) == columns_from(k2, m),
    decreases m,
{
    if m > 0 {
        lemma_columns_prefix(k, k2, (m - 1) as nat);
    }
}

/// What keywords describe, as one word.
#[verifier::opaque]
spec fn described(k: KeywordsView, number: u64, offset: usize) -> Result<ColumnView, HeaderError> {
    column_from(k, number, offset)
}

proof fn lemma_described(k: KeywordsView, number: u64, offset: usize)
    ensures
        described(k, number, offset) == column_from(k, number, offset),
{
    reveal(described);
}

/// One more column.
proof fn lemma_column_step(k: Seq<KeywordsView>, m: nat, prev: Seq<ColumnView>, c: ColumnView)
    requires
        0 < m <= k.len(),
        columns_from(k, (m - 1) as nat) == Ok::<Seq<ColumnView>, HeaderError>(prev),
        described(k[m - 1], m as u64, row_end(prev) as usize) == Ok::<ColumnView, HeaderError>(c),
        row_end(prev) + c.byte_width <= usize::MAX,
    ensures
        columns_from(k, m) == Ok::<Seq<ColumnView>, HeaderError>(prev.push(c)),
{
    reveal(described);
}

/// A column that is there, with another number and at another place.
proof fn lemma_column_again(k: Seq<KeywordsView>, n: nat, j: nat, b: u64, y: usize)
    requires
        columns_from(k, n) is Ok,
        j < n,
    ensures
        ({
            let cols = columns_from(k, n)->Ok_0;
            &&& cols[j as int].byte_offset == row_end(cols.take(j as int))
            &&& described(k[j as int], b, y) == Ok::<ColumnView, HeaderError>(
                moved_column(cols[j as int], k[j as int], b, y),
            )
        }),
{
    reveal(described);
    let cols = columns_from(k, n)->Ok_0;
    lemma_columns_take(k, n, j);
    lemma_columns_take(k, n, j + 1);
    lemma_row_end_bound(k, n, j);
    let before = cols.take(j as int);
    assert(cols.take((j + 1) as int).drop_last() =~= before);
    assert(cols.take((j + 1) as int).last() == cols[j as int]);
    let x = row_end(before) as usize;
    assert(columns_from(k, j + 1)->Ok_0 == before.push(
        column_from(k[j as int], (j + 1) as u64, x)->Ok_0,
    ));
    assert(column_from(k[j as int], (j + 1) as u64, x) == Ok::<ColumnView, HeaderError>(
        cols[j as int],
    ));
    lemma_offset(k[j as int], (j + 1) as u64, x);
    lemma_column_from_any(k[j as int], (j + 1) as u64, x, b, y);
}

proof fn lemma_columns_with(
    k: Seq<KeywordsView>,
    n: nat,
    at: nat,
    x: KeywordsView,
    c: ColumnView,
    m: nat,
)
    requires
        columns_from(k, n) is Ok,
        at <= n < u64::MAX,
        m <= n + 1,
        described(
            x,
            (at + 1) as u64,
            row_end(columns_from(k, n)->Ok_0.take(at as int)) as usize,
        ) == Ok::<ColumnView, HeaderError>(c),
        c.byte_offset == row_end(columns_from(k, n)->Ok_0.take(at as int)),
        row_end(columns_from(k, n)->Ok_0) + c.byte_width <= usize::MAX,
    ensures
        columns_from(k.insert(at as int, x), m) == Ok::<Seq<ColumnView>, HeaderError>(
            columns_with(columns_from(k, n)->Ok_0, k, at as int, c).take(m as int),
        ),
        m > at ==> row_end(columns_with(columns_from(k, n)->Ok_0, k, at as int, c).take(m as int))
            == row_end(columns_from(k, n)->Ok_0.take(m - 1)) + c.byte_width,
        m <= at ==> row_end(columns_with(columns_from(k, n)->Ok_0, k, at as int, c).take(m as int))
            == row_end(columns_from(k, n)->Ok_0.take(m as int)),
    decreases m,
{
    let cols = columns_from(k, n)->Ok_0;
    let k2 = k.insert(at as int, x);
    let all = columns_with(cols, k, at as int, c);
    lemma_columns_take(k, n, at);
    lemma_columns_take(k, n, n);
    if m <= at {
        lemma_columns_take(k, n, m);
        lemma_columns_prefix(k, k2, m);
        assert(all.take(m as int) =~= cols.take(m as int));
    } else {
        lemma_columns_with(k, n, at, x, c, (m - 1) as nat);
        let prev = all.take(m - 1);
        assert(all.take(m as int) =~= prev.push(all[m - 1]));
        assert(all.take(m as int).last() == all[m - 1]);
        lemma_row_end_bound(k, n, (m - 1) as nat);
        if m - 1 == at {
            assert(k2[at as int] == x);
            lemma_column_step(k2, m, prev, c);
        } else {
            let j = (m - 2) as nat;
            assert(k2[m - 1] == k[j as int]);
            lemma_row_end_bound(k, n, j);
            lemma_column_again(k, n, j, m as u64, row_end(prev) as usize);
            assert(row_end(prev) == row_end(cols.take(j as int)) + c.byte_width);
            assert(cols.take((j + 1) as int).last() == cols[j as int]);
            assert(all[m - 1] == moved_column(
                cols[j as int],
                k[j as int],
                m as u64,
                row_end(prev) as usize,
            ));
            lemma_column_step(k2, m, prev, all[m - 1]);
        }
    }
}

proof fn lemma_offset(k: KeywordsView, a: u64, x: usize)
    ensures
        column_from(k, a, x) matches Ok(c) ==> c.byte_offset == x,
{
}

/// The first columns end within the row.
proof fn lemma_row_end_bound(k: Seq<KeywordsView>, n: nat, m: nat)
    requires
        columns_from(k, n) is Ok,
        m <= n,
    ensures
        0 <= row_end(columns_from(k, n)->Ok_0.take(m as int)) <= row_end(columns_from(k, n)->Ok_0),
        row_end(columns_from(k, n)->Ok_0) <= usize::MAX,
    decreases n,
{
    let cols = columns_from(k, n)->Ok_0;
    lemma_columns_from(k, n);
    lemma_columns_take(k, n, m);
    lemma_columns_from(k, m);
    if m < n {
        lemma_row_end_bound(k, (n - 1) as nat, m);
        lemma_columns_take(k, n, (n - 1) as nat);
        let t = columns_from(k, (n - 1) as nat)->Ok_0;
        assert(cols.take(m as int) =~= t.take(m as int));
        lemma_columns_from(k, (n - 1) as nat);
        lemma_offset(k[n - 1], n as u64, row_end(t) as usize);
        assert(cols.drop_last() =~= t);
    } else {
        assert(cols.take(n as int) =~= cols);
    }
}

/// A header to which the keywords of a column have been added describes the
/// columns that there were, and that one in its place. Taking these keywords out
/// leaves those that there were.
pub proof fn law_header_with_column(
    t: TableKeywords,
    t2: TableKeywords,
    at: nat,
    x: KeywordsView,
    c: ColumnView,
)
    requires
        table_columns(t) is Ok,
        at <= table_columns(t)->Ok_0.len() < i64::MAX,
        column_from(
            x,
            (at + 1) as u64,
            row_end(table_columns(t)->Ok_0.take(at as int)) as usize,
        ) == Ok::<ColumnView, HeaderError>(c),
        row_end(table_columns(t)->Ok_0) + c.byte_width <= usize::MAX,
        keyword_views(t2.columns@) == keyword_views(t.columns@).insert(at as int, x),
        t2.tfields matches Some(m) && m == t.tfields->0 + 1,
        t2.naxis1 matches Some(m) && m == or_else(t.naxis1, 0i64) + c.byte_width,
    ensures
        table_columns(t2) == Ok::<Seq<ColumnView>, HeaderError>(
            columns_with(table_columns(t)->Ok_0, keyword_views(t.columns@), at as int, c),
        ),
        keyword_views(t2.columns@).remove(at as int) == keyword_views(t.columns@),
{
    let k = keyword_views(t.columns@);
    let n = t.tfields->0 as nat;
    let cols = table_columns(t)->Ok_0;
    lemma_columns_from(k, n);
    lemma_columns_take(k, n, n);
    lemma_offset(x, (at + 1) as u64, row_end(cols.take(at as int)) as usize);
    lemma_row_end_bound(k, n, at);
    lemma_described(x, (at + 1) as u64, row_end(cols.take(at as int)) as usize);
    lemma_columns_with(k, n, at, x, c, n + 1);
    let all = columns_with(cols, k, at as int, c);
    assert(all.take((n + 1) as int) =~= all);
    assert(cols.take(n as int) =~= cols);
    assert(k.insert(at as int, x).remove(at as int) =~= k);
}

// Plans --------------------------------------------------------------------

proof fn lemma_pre_widths(cols: Seq<ColumnView>, cols2: Seq<ColumnView>, k: int)
    requires
        0 <= k <= cols.len(),
        k <= cols2.len(),
        forall|j: int| 0 <= j < k ==> cols[j] == cols2[j],
    ensures
        pre_width(cols2, k) == pre_width(cols, k),
    decreases k,
{
    if k > 0 {
        lemma_pre_widths(cols, cols2, k - 1);
    }
}

/// Taking out by its name the column that was put in takes out just that column.
/// `heap` says nothing against it: no card says where the heap starts.
pub proof fn law_delete_plan_undoes_insert(
    cols: Seq<ColumnView>,
    cols2: Seq<ColumnView>,
    row_width: int,
    at: int,
    name: Seq<char>,
    key: ColumnKey,
    heap: Option<EditError>,
    target: Target,
    after: Seq<char>,
    before: Seq<char>,
)
    requires
        columns_fill(cols, row_width),
        0 <= at <= cols.len(),
        cols2.len() == cols.len() + 1,
        forall|j: int| 0 <= j < at ==> cols2[j] == cols[j],
        cols2[at].name == name,
        row_width + cols2[at].byte_width <= usize::MAX,
        at <= usize::MAX,
        insert_place(
            name_uppers(cols),
            heap,
            name,
            uppercase(name),
            target,
            after,
            before,
        ) is Ok,
        key is Name,
    ensures
        delete_plan(
            cols2,
            name_uppers(cols2),
            None,
            row_width + cols2[at].byte_width,
            key,
            uppercase(name),
        ) == Ok::<DeletePlan, EditError>(
            DeletePlan {
                column: at as usize,
                pre: pre_width(cols, at) as usize,
                post: (pre_width(cols, at) + cols2[at].byte_width) as usize,
                row_width: row_width as usize,
            },
        ),
{
    let u = name_uppers(cols);
    let u2 = name_uppers(cols2);
    let upper = uppercase(name);
    lemma_first_text(u, upper);
    assert forall|j: int| 0 <= j < at implies u2[j] != upper by {
        assert(u2[j] == u[j]);
    }
    lemma_first_text_at(u2, upper, at);
    lemma_pre_widths(cols, cols2, at);
    lemma_pre_width(cols, row_width, at);
    crate::columns::lemma_columns_fill(cols, row_width);
    assert(pre_width(cols2, at + 1) == pre_width(cols2, at) + cols2[at].byte_width);
}

// The two calls ------------------------------------------------------------

/// Taking out by its name a column of fixed-width values that was put in takes out
/// that column, and leaves the columns that there were.
pub proof fn law_delete_finds_inserted(
    t: TableKeywords,
    t2: TableKeywords,
    q: InsertRequest,
    a: ArrayInfo,
    place: TablePlace,
    p: InsertPlan,
    key: ColumnKey,
)
    requires
        table_columns(t) is Ok,
        table_columns(t)->Ok_0.len() < i64::MAX,
        or_else(t.naxis1, 0i64) == place.row_width,
        request_place(q, table_columns(t)->Ok_0, place, 0) == Ok::<int, EditError>(p.at as int),
        a.kind != 'O',
        forall|i: int| 1 <= i < a.shape@.len() ==> a.shape@[i] > 0,
        planned_insert(
            Ok(p),
            q,
            table_columns(t)->Ok_0,
            a,
            Seq::empty(),
            place,
            p.at as int,
        ),
        keyword_views(t2.columns@) == keyword_views(t.columns@).insert(
            p.at as int,
            keywords_of(p.column->Fixed_0.column@),
        ),
        t2.tfields matches Some(m) && m == t.tfields->0 + 1,
        t2.naxis1 matches Some(m) && m == p.row_width,
        key matches ColumnKey::Name(s) && uppercase(s@) == uppercase(q.name@),
    ensures
        p.pre <= place.row_width,
        p.row_width == place.row_width + p.column->Fixed_0.column@.byte_width,
        table_columns(t2) matches Ok(cols2) && delete_plan(
            cols2,
            name_uppers(cols2),
            None,
            p.row_width as int,
            key,
            key_upper(key),
        ) == Ok::<DeletePlan, EditError>(
            DeletePlan {
                column: p.at,
                pre: p.pre,
                post: (p.pre + p.column->Fixed_0.column@.byte_width) as usize,
                row_width: place.row_width,
            },
        ),
        keyword_views(t2.columns@).remove(p.at as int) == keyword_views(t.columns@),
{
    let cols = table_columns(t)->Ok_0;
    let k = keyword_views(t.columns@);
    let nc = p.column->Fixed_0.column@;
    let w = nc.byte_width as int;
    let rw = place.row_width as int;
    let at = p.at as int;
    law_columns_fill_row(t);
    lemma_place_bound(
        name_uppers(cols),
        q.target,
        opt_key_upper(q.target.after),
        opt_key_upper(q.target.before),
    );
    lemma_pre_width(cols, rw, at);
    lemma_columns_fill(cols, rw);
    // What is said of the new column is read.
    let x = keywords_of(nc);
    let shape = a.shape@.drop_first();
    let unit = opt_text(q.unit);
    assert(fixed_column(q.name@, a.kind, a.itemsize, shape, unit, q.bits) == Ok::<
        WriteColumnView,
        DtypeError,
    >(nc));
    assert forall|i: int| 0 <= i < shape.len() implies shape[i] > 0 by {
        assert(shape[i] == a.shape@[i + 1]);
    }
    let pre = row_end(cols.take(at));
    law_fixed_column_reads_back(
        q.name@,
        a.kind,
        a.itemsize,
        shape,
        unit,
        q.bits,
        (at + 1) as u64,
        pre as usize,
    );
    let c = column_from(x, (at + 1) as u64, pre as usize)->Ok_0;
    lemma_row_end_is_width(cols, rw);
    law_header_with_column(t, t2, p.at as nat, x, c);
    let cols2 = table_columns(t2)->Ok_0;
    law_delete_plan_undoes_insert(
        cols,
        cols2,
        rw,
        at,
        q.name@,
        key,
        custom_heap(0, place.nrows, place.row_width),
        q.target,
        opt_key_upper(q.target.after),
        opt_key_upper(q.target.before),
    );
}

/// Taking out by its name a column of fixed-width values that was put in gives
/// back the table: its columns, its cards, its rows and its heap, and leaves all
/// that is no data of the table alone. The header did not say where the heap
/// starts. `cells` are those of the new column, and `per` and `per_back` the rows
/// of a strip.
pub proof fn law_delete_undoes_insert_calls(
    t: TableKeywords,
    t2: TableKeywords,
    q: InsertRequest,
    a: ArrayInfo,
    place: TablePlace,
    p: InsertPlan,
    key: ColumnKey,
    cards: Seq<Seq<char>>,
    new: Seq<Seq<char>>,
    tfields: Seq<char>,
    naxis1: Seq<char>,
    tfields1: Seq<char>,
    naxis11: Seq<char>,
    file: Seq<u8>,
    cells: Seq<Seq<u8>>,
    per: nat,
    per_back: nat,
)
    requires
        // The table, and the plan of the column.
        table_columns(t) is Ok,
        table_columns(t)->Ok_0.len() < i64::MAX,
        or_else(t.naxis1, 0i64) == place.row_width,
        request_place(q, table_columns(t)->Ok_0, place, 0) == Ok::<int, EditError>(p.at as int),
        a.kind != 'O',
        forall|i: int| 1 <= i < a.shape@.len() ==> a.shape@[i] > 0,
        planned_insert(
            Ok(p),
            q,
            table_columns(t)->Ok_0,
            a,
            Seq::empty(),
            place,
            p.at as int,
        ),
        // The header with the column.
        keyword_views(t2.columns@) == keyword_views(t.columns@).insert(
            p.at as int,
            keywords_of(p.column->Fixed_0.column@),
        ),
        t2.tfields matches Some(m) && m == t.tfields->0 + 1,
        t2.naxis1 matches Some(m) && m == p.row_width,
        key matches ColumnKey::Name(s) && uppercase(s@) == uppercase(q.name@),
        // Its cards.
        forall|k: int| 0 <= k < cards.len() ==> regular(#[trigger] cards[k]),
        forall|k: int| 0 <= k < new.len() ==> about(#[trigger] new[k], p.at),
        first_keyword(cards, "TFIELDS"@) matches Some(i) && cards[i] == tfields,
        first_keyword(cards, "NAXIS1"@) matches Some(j) && cards[j] == naxis1,
        first_keyword(cards, "THEAP"@) is None,
        keyword(tfields1) == Some("TFIELDS"@),
        keyword(naxis11) == Some("NAXIS1"@),
        last_end(all_renumbered(cards, p.at, true)) is Some,
        // The file.
        0 < per,
        0 < per_back,
        cells.len() == place.nrows,
        forall|r: int|
            0 <= r < cells.len() ==> (#[trigger] cells[r]).len()
                == p.column->Fixed_0.column@.byte_width,
        place.data_offset + padded(main_bytes(place) + place.pcount) <= file.len() <= u64::MAX,
        file.len() + padded(place.nrows * p.row_width + place.pcount) <= u64::MAX,
        fits(place.data_offset as int, place.nrows * p.row_width + place.pcount),
    ensures
        ({
            let w = p.column->Fixed_0.column@.byte_width as int;
            let rw = place.row_width as int;
            let offset = place.data_offset as int;
            let pcount = place.pcount as int;
            let n = place.nrows as nat;
            // The column that is found is the one that was put in.
            &&& table_columns(t2) matches Ok(cols2) && delete_plan(
                cols2,
                name_uppers(cols2),
                None,
                p.row_width as int,
                key,
                key_upper(key),
            ) == Ok::<DeletePlan, EditError>(
                DeletePlan {
                    column: p.at,
                    pre: p.pre,
                    post: (p.pre + w) as usize,
                    row_width: place.row_width,
                },
            )
            // Without its keywords the header describes the columns that there were.
            &&& keyword_views(t2.columns@).remove(p.at as int) == keyword_views(t.columns@)
            // The cards are those that there were.
            &&& cards_with_column(cards, p.at, new, tfields1, naxis11, None) matches Ok(with)
                && cards_without_column(with, p.at, tfields, naxis1) == Ok::<
                Seq<Seq<char>>,
                EditError,
            >(cards)
            // The rows and the heap are those that there were.
            &&& ({
                let wide = column_inserted(
                    file,
                    offset,
                    rw,
                    w,
                    p.pre as int,
                    cells,
                    pcount,
                    Seq::empty(),
                    per,
                );
                let back = column_deleted(
                    wide,
                    offset,
                    rw + w,
                    p.pre as int,
                    p.pre + w,
                    n,
                    pcount,
                    per_back,
                );
                &&& back.take(offset) == file.take(offset)
                &&& back.subrange(offset, offset + n * rw + pcount) == file.subrange(
                    offset,
                    offset + n * rw + pcount,
                )
                &&& back.skip(offset + padded(n * rw + pcount)) == file.skip(
                    offset + padded(n * rw + pcount),
                )
            })
        }),
{
    let w = p.column->Fixed_0.column@.byte_width as int;
    let rw = place.row_width as int;
    law_delete_finds_inserted(t, t2, q, a, place, p, key);
    law_cards_back(cards, p.at, new, tfields, naxis1, tfields1, naxis11);
    let none = Seq::<u8>::empty();
    law_delete_undoes_insert(
        file,
        place.data_offset as int,
        rw,
        w,
        p.pre as int,
        cells,
        place.pcount as int,
        none,
        per,
        per_back,
    );
    let part = file.subrange(
        place.data_offset as int,
        place.data_offset + place.nrows * rw + place.pcount,
    );
    assert(part + none =~= part);
}

/// A new column goes before, between or behind those that there are.
proof fn lemma_place_bound(
    uppers: Seq<Seq<char>>,
    target: Target,
    after: Seq<char>,
    before: Seq<char>,
)
    ensures
        insert_index(uppers, target, after, before) matches Ok(at) ==> 0 <= at <= uppers.len(),
{
    lemma_first_text(uppers, after);
    lemma_first_text(uppers, before);
}

/// Columns that fill a row end where it does.
proof fn lemma_row_end_is_width(cols: Seq<ColumnView>, width: int)
    requires
        columns_fill(cols, width),
    ensures
        row_end(cols) == width,
{
}

} // verus!
