//! What headers say of a table as a whole, and what is taken out of rows or read
//! at a time.

use vstd::prelude::*;

use crate::cards::{
    byte_len, cut, ended_with, first_char, first_keyword, first_opening, first_with, hint_of,
    hinted, hinted_tform, keyword, last_char, last_end, lemma_ascii_len, lemma_cut, lemma_cut_at,
    new_column_cards, opens_with, with_pcount,
};
use crate::columns::{ColumnView, Descriptor, Letter, columns_fill, lemma_columns_fill, opt_text};
use crate::create::{WriteColumnView, joined};
use crate::edit::{
    ColumnKey, Target, delete_plan, insert_index, insert_place, key_place, most_elements,
    new_column, pre_width,
};
use crate::error::EditError;
use crate::fields::{cell_shape, field_type, type_code};
use crate::header::{
    CardValueView, CardView, column_cards, lemma_trimmed, table_cards, tform_text, total_width,
};
use crate::input::ArrayInfo;
use crate::iter::buffer_rows;
use crate::numbering::{
    column_key, labelled, lemma_column_key, lemma_first_keyword_place, lemma_label_keyword,
    proper_key,
};
use crate::plans::{InsertColumn, InsertPlan, InsertRequest, TablePlace, planned_insert};
use crate::repr::{
    column_code, column_line, column_shape, inner_text, longest_name, spaced, table_text,
};
use crate::selected::{all_white, law_first_text, law_trimmed};
use crate::text::{decimal, is_digit, is_white, law_decimal_parses, lemma_decimal_value, trimmed};
use crate::types::{lemma_small_decimals, natural};
use crate::vla::VarInput;

verus! {

// New headers --------------------------------------------------------------

/// Whether a card is the first one with its keyword, and its value is given.
pub open spec fn card_says(cards: Seq<CardView>, key: Seq<char>, value: CardValueView) -> bool {
    exists|i: int|
        0 <= i < cards.len() && (#[trigger] cards[i]).key == key && cards[i].value == value
            && forall|j: int| 0 <= j < i ==> (#[trigger] cards[j]).key != key
}

/// The header of a new table starts with what every binary table says of itself,
/// and ends with an end.
pub proof fn law_header_frame(
    cols: Seq<WriteColumnView>,
    nrows: i64,
    extname: Option<Seq<char>>,
    extver: Option<i64>,
)
    ensures
        ({
            let cards = table_cards(cols, nrows, extname, extver);
            &&& cards.len() >= 9
            &&& cards[0].key == seq!['X', 'T', 'E', 'N', 'S', 'I', 'O', 'N']
            &&& cards[0].value == CardValueView::Text(
                seq!['B', 'I', 'N', 'T', 'A', 'B', 'L', 'E'],
            )
            &&& cards[1].key == seq!['B', 'I', 'T', 'P', 'I', 'X']
            &&& cards[1].value == CardValueView::Int(8)
            &&& cards[2].key == seq!['N', 'A', 'X', 'I', 'S']
            &&& cards[2].value == CardValueView::Int(2)
            &&& cards[3].key == seq!['N', 'A', 'X', 'I', 'S', '1']
            &&& cards[3].value == CardValueView::Int(total_width(cols) as i64)
            &&& cards[4].key == seq!['N', 'A', 'X', 'I', 'S', '2']
            &&& cards[4].value == CardValueView::Int(nrows)
            &&& cards[5].key == seq!['P', 'C', 'O', 'U', 'N', 'T']
            &&& cards[5].value == CardValueView::Int(0)
            &&& cards[6].key == seq!['G', 'C', 'O', 'U', 'N', 'T']
            &&& cards[6].value == CardValueView::Int(1)
            &&& cards[7].key == seq!['T', 'F', 'I', 'E', 'L', 'D', 'S']
            &&& cards[7].value == CardValueView::Int(cols.len() as i64)
            &&& extname matches Some(n) ==> cards[8].key == seq![
                'E',
                'X',
                'T',
                'N',
                'A',
                'M',
                'E',
            ] && cards[8].value == CardValueView::Text(n)
            &&& extver matches Some(v) ==> ({
                let i = if extname is Some {
                    9int
                } else {
                    8
                };
                cards[i].key == seq!['E', 'X', 'T', 'V', 'E', 'R'] && cards[i].value
                    == CardValueView::Int(v)
            })
            &&& cards.last().key == seq!['E', 'N', 'D']
            &&& cards.last().value == CardValueView::End
        }),
{
    reveal_strlit("XTENSION");
    reveal_strlit("BINTABLE");
    reveal_strlit("BITPIX");
    reveal_strlit("NAXIS");
    reveal_strlit("NAXIS1");
    reveal_strlit("NAXIS2");
    reveal_strlit("PCOUNT");
    reveal_strlit("GCOUNT");
    reveal_strlit("TFIELDS");
    reveal_strlit("EXTNAME");
    reveal_strlit("EXTVER");
    reveal_strlit("END");
    assert("XTENSION"@ =~= seq!['X', 'T', 'E', 'N', 'S', 'I', 'O', 'N']);
    assert("BINTABLE"@ =~= seq!['B', 'I', 'N', 'T', 'A', 'B', 'L', 'E']);
    assert("BITPIX"@ =~= seq!['B', 'I', 'T', 'P', 'I', 'X']);
    assert("NAXIS"@ =~= seq!['N', 'A', 'X', 'I', 'S']);
    assert("NAXIS1"@ =~= seq!['N', 'A', 'X', 'I', 'S', '1']);
    assert("NAXIS2"@ =~= seq!['N', 'A', 'X', 'I', 'S', '2']);
    assert("PCOUNT"@ =~= seq!['P', 'C', 'O', 'U', 'N', 'T']);
    assert("GCOUNT"@ =~= seq!['G', 'C', 'O', 'U', 'N', 'T']);
    assert("TFIELDS"@ =~= seq!['T', 'F', 'I', 'E', 'L', 'D', 'S']);
    assert("EXTNAME"@ =~= seq!['E', 'X', 'T', 'N', 'A', 'M', 'E']);
    assert("EXTVER"@ =~= seq!['E', 'X', 'T', 'V', 'E', 'R']);
    assert("END"@ =~= seq!['E', 'N', 'D']);
}

/// A row of a new table is as wide as its columns together: one more column is so
/// many bytes more.
pub proof fn law_total_width(cols: Seq<WriteColumnView>, c: WriteColumnView)
    ensures
        total_width(Seq::empty()) == 0,
        total_width(cols.push(c)) == total_width(cols) + c.byte_width,
{
    assert(cols.push(c).drop_last() =~= cols);
}

/// The cards of a new column say its name, its format, and, where it has them,
/// its dimensions, its offset and its unit.
pub proof fn law_column_cards(c: WriteColumnView, n: int)
    requires
        1 <= n <= 999,
    ensures
        ({
            let cards = column_cards(c, n as nat);
            &&& card_says(
                cards,
                seq!['T', 'T', 'Y', 'P', 'E'] + decimal(n as nat),
                CardValueView::Text(c.name),
            )
            &&& card_says(
                cards,
                seq!['T', 'F', 'O', 'R', 'M'] + decimal(n as nat),
                CardValueView::Text(tform_text(c.letter, c.repeat, c.var_kind)),
            )
            &&& c.tdim matches Some(d) ==> card_says(
                cards,
                seq!['T', 'D', 'I', 'M'] + decimal(n as nat),
                CardValueView::Text(d),
            )
            &&& c.tzero matches Some(z) ==> card_says(
                cards,
                seq!['T', 'Z', 'E', 'R', 'O'] + decimal(n as nat),
                CardValueView::Uint(z),
            )
            &&& c.tunit matches Some(u) ==> card_says(
                cards,
                seq!['T', 'U', 'N', 'I', 'T'] + decimal(n as nat),
                CardValueView::Text(u),
            )
            &&& cards.len() == 2 + (if c.tdim is Some {
                1int
            } else {
                0
            }) + (if c.tzero is Some {
                1int
            } else {
                0
            }) + (if c.tunit is Some {
                1int
            } else {
                0
            })
        }),
{
    reveal_strlit("TTYPE");
    reveal_strlit("TFORM");
    reveal_strlit("TDIM");
    reveal_strlit("TZERO");
    reveal_strlit("TUNIT");
    let d = decimal(n as nat);
    let ttype = seq!['T', 'T', 'Y', 'P', 'E'] + d;
    let tform = seq!['T', 'F', 'O', 'R', 'M'] + d;
    let tdim = seq!['T', 'D', 'I', 'M'] + d;
    let tzero = seq!['T', 'Z', 'E', 'R', 'O'] + d;
    let tunit = seq!['T', 'U', 'N', 'I', 'T'] + d;
    assert("TTYPE"@ =~= seq!['T', 'T', 'Y', 'P', 'E']);
    assert("TFORM"@ =~= seq!['T', 'F', 'O', 'R', 'M']);
    assert("TDIM"@ =~= seq!['T', 'D', 'I', 'M']);
    assert("TZERO"@ =~= seq!['T', 'Z', 'E', 'R', 'O']);
    assert("TUNIT"@ =~= seq!['T', 'U', 'N', 'I', 'T']);
    assert(ttype[1] == 'T' && tform[1] == 'F' && tdim[1] == 'D' && tzero[1] == 'Z' && tunit[1]
        == 'U');
    let cards = column_cards(c, n as nat);
    assert(cards[0].key == ttype);
    assert(cards[1].key == tform);
    let a = if c.tdim is Some {
        3int
    } else {
        2
    };
    let b = if c.tzero is Some {
        a + 1
    } else {
        a
    };
    if c.tdim is Some {
        assert(cards[2].key == tdim);
    }
    if c.tzero is Some {
        assert(cards[a].key == tzero);
    }
    if c.tunit is Some {
        assert(cards[b].key == tunit);
    }
}

// Cards that change --------------------------------------------------------

/// A card that starts with a word opens with it, and one that opens with it starts
/// with it.
pub proof fn law_opening(card: Seq<char>, word: Seq<char>)
    requires
        proper_key(word),
        !is_white(word[0]),
    ensures
        card.len() >= word.len() && card.take(word.len() as int) == word ==> opens_with(
            card,
            word.len(),
            word,
        ),
        opens_with(card, word.len(), word) ==> card.len() >= word.len() && card.take(
            word.len() as int,
        ) == word,
{
    let n = word.len();
    lemma_ascii_len(word);
    if card.len() >= n && card.take(n as int) == word {
        lemma_cut(card, n, n as int);
        lemma_trimmed(word);
    }
    if opens_with(card, n, word) {
        lemma_cut_at(card, n);
        let k = cut(card, n)->0;
        let h = card.take(k);
        law_trimmed(h);
        let (a, b) = choose|a: int, b: int|
            0 <= a <= b <= h.len() && #[trigger] h.subrange(a, b) == trimmed(h) && all_white(
                h.take(a),
            ) && all_white(h.skip(b));
        assert(h.len() <= n);
        assert(word.len() == b - a);
        assert(a == 0 && b == h.len());
        assert(h.subrange(a, b) =~= h);
        assert(card.take(n as int) =~= h);
    }
}

/// The first card that opens with a word is the one that is found.
pub proof fn law_first_opening(cards: Seq<Seq<char>>, n: nat, word: Seq<char>)
    ensures
        match first_opening(cards, n, word) {
            Some(i) => 0 <= i < cards.len() && opens_with(cards[i], n, word) && forall|j: int|
                0 <= j < i ==> !opens_with(#[trigger] cards[j], n, word),
            None => forall|j: int|
                0 <= j < cards.len() ==> !opens_with(#[trigger] cards[j], n, word),
        },
    decreases cards.len(),
{
    if cards.len() > 0 {
        let t = cards.drop_last();
        law_first_opening(t, n, word);
        assert(forall|j: int| 0 <= j < t.len() ==> cards[j] == t[j]);
    }
}

/// The first card with a keyword is the one that is found. A card that is
/// labelled with a keyword has it, and no other.
pub proof fn law_first_keyword(cards: Seq<Seq<char>>, key: Seq<char>, i: int)
    requires
        proper_key(key),
        0 <= i < cards.len(),
        labelled(cards[i], key),
        forall|j: int| 0 <= j < i ==> keyword(#[trigger] cards[j]) != Some(key),
    ensures
        keyword(cards[i]) == Some(key),
        first_keyword(cards, key) == Some(i),
{
    lemma_label_keyword(cards[i], key);
    lemma_first_keyword_place(cards, key);
}

/// Saying the size of the heap says just that: the card that said it is replaced,
/// and where there was none, one is put in before TFIELDS, or before the last
/// card. No other card is touched.
pub proof fn law_pcount_said(cards: Seq<Seq<char>>, card: Seq<char>)
    requires
        cards.len() > 0,
    ensures
        ({
            let after = with_pcount(cards, card);
            let word = seq!['P', 'C', 'O', 'U', 'N', 'T'];
            let fields = seq!['T', 'F', 'I', 'E', 'L', 'D', 'S'];
            if exists|i: int| 0 <= i < cards.len() && opens_with(#[trigger] cards[i], 6, word) {
                exists|i: int|
                    0 <= i < cards.len() && opens_with(#[trigger] cards[i], 6, word) && after
                        == cards.update(i, card)
            } else {
                exists|i: int|
                    0 <= i < cards.len() && #[trigger] cards.insert(i, card) == after && if exists|
                        j: int,
                    |
                        0 <= j < cards.len() && opens_with(#[trigger] cards[j], 7, fields) {
                        opens_with(cards[i], 7, fields)
                    } else {
                        i == cards.len() - 1
                    }
            }
        }),
{
    reveal_strlit("PCOUNT");
    reveal_strlit("TFIELDS");
    assert("PCOUNT"@ =~= seq!['P', 'C', 'O', 'U', 'N', 'T']);
    assert("TFIELDS"@ =~= seq!['T', 'F', 'I', 'E', 'L', 'D', 'S']);
    law_first_opening(cards, 6, "PCOUNT"@);
    law_first_opening(cards, 7, "TFIELDS"@);
    match first_opening(cards, 6, "PCOUNT"@) {
        Some(i) => {
            assert(opens_with(cards[i], 6, "PCOUNT"@));
        },
        None => match first_opening(cards, 7, "TFIELDS"@) {
            Some(i) => {
                assert(cards.insert(i, card) == with_pcount(cards, card));
            },
            None => {
                assert(cards.insert(cards.len() - 1, card) == with_pcount(cards, card));
            },
        },
    }
}

/// The hint of a format of bits in the heap is read back from its card, where no
/// other brackets stand in that.
pub proof fn law_hint_read(a: Seq<char>, b: Seq<char>, kind: Descriptor, bits: usize)
    requires
        forall|i: int| 0 <= i < a.len() ==> #[trigger] a[i] != '(',
        forall|i: int| 0 <= i < b.len() ==> #[trigger] b[i] != ')',
    ensures
        hint_of(a + hinted_tform(kind, bits as nat) + b) == bits,
{
    let t = hinted_tform(kind, bits as nat);
    let d = decimal(bits as nat);
    let s = a + t + b;
    let x = a.len() as int + 3;
    let y = a.len() as int + 4 + d.len();
    lemma_decimal_value(bits as nat);
    assert(t.len() == 5 + d.len());
    assert(t[3] == '(' && t[4 + d.len() as int] == ')');
    assert(s[x] == '(' && s[y] == ')');
    assert forall|i: int| 0 <= i < x implies s[i] != '(' by {
        if i < a.len() {
            assert(s[i] == a[i]);
        } else {
            assert(s[i] == t[i - a.len()]);
        }
    }
    assert forall|i: int| y < i < s.len() implies s[i] != ')' by {
        assert(s[i] == b[i - y - 1]);
    }
    lemma_first_char_at(s, '(', x);
    lemma_last_char_at(s, ')', y);
    assert(s.subrange(x + 1, y) =~= d);
    assert(is_digit(d[0]) && is_digit(d[d.len() - 1]));
    lemma_trimmed(d);
    law_decimal_parses(bits);
}

proof fn lemma_first_char_at(s: Seq<char>, c: char, i: int)
    requires
        0 <= i < s.len(),
        s[i] == c,
        forall|j: int| 0 <= j < i ==> s[j] != c,
    ensures
        first_char(s, c) == Some(i),
    decreases s.len(),
{
    let p = s.drop_last();
    if i < p.len() {
        lemma_first_char_at(p, c, i);
    } else {
        lemma_no_char(p, c);
    }
}

proof fn lemma_no_char(s: Seq<char>, c: char)
    requires
        forall|j: int| 0 <= j < s.len() ==> s[j] != c,
    ensures
        first_char(s, c) is None,
    decreases s.len(),
{
    if s.len() > 0 {
        lemma_no_char(s.drop_last(), c);
    }
}

proof fn lemma_last_char_at(s: Seq<char>, c: char, i: int)
    requires
        0 <= i < s.len(),
        s[i] == c,
        forall|j: int| i < j < s.len() ==> s[j] != c,
    ensures
        last_char(s, c) == Some(i),
    decreases s.len(),
{
    if i < s.len() - 1 {
        assert(s[s.len() - 1] != c);
        lemma_last_char_at(s.drop_last(), c, i);
    }
}

// Rows ---------------------------------------------------------------------

/// What is taken out of the rows with a column is its cells: from where it starts
/// in a row to where it ends. The rows are then narrower by its width.
pub proof fn law_delete_plan(
    cols: Seq<ColumnView>,
    row_width: int,
    key: ColumnKey,
    upper: Seq<char>,
    uppers: Seq<Seq<char>>,
)
    requires
        columns_fill(cols, row_width),
        row_width <= usize::MAX,
        cols.len() <= usize::MAX,
        uppers.len() == cols.len(),
    ensures
        delete_plan(cols, uppers, None, row_width, key, upper) matches Ok(p) ==> p.column
            < cols.len() && key_place(uppers, key, upper) == Ok::<int, EditError>(p.column as int)
            && p.pre == cols[p.column as int].byte_offset && p.post == cols[p.column
            as int].byte_offset + cols[p.column as int].byte_width && p.row_width == row_width
            - cols[p.column as int].byte_width,
        cols.len() > 0 && key_place(uppers, key, upper) is Ok ==> delete_plan(
            cols,
            uppers,
            None,
            row_width,
            key,
            upper,
        ) is Ok,
{
    lemma_columns_fill(cols, row_width);
    if let Ok(i) = key_place(uppers, key, upper) {
        law_first_text(uppers, upper);
        assert(0 <= i < cols.len());
        lemma_pre_width(cols, row_width, i);
        lemma_pre_width(cols, row_width, i + 1);
    }
}

proof fn lemma_pre_width(cols: Seq<ColumnView>, row_width: int, k: int)
    requires
        columns_fill(cols, row_width),
        0 <= k <= cols.len(),
    ensures
        pre_width(cols, k) == if k < cols.len() {
            cols[k].byte_offset as int
        } else {
            row_width
        },
    decreases cols.len(),
{
    if cols.len() > 0 {
        let t = cols.drop_last();
        let end = cols.last().byte_offset as int;
        if k < cols.len() {
            lemma_pre_width(t, end, k);
            lemma_pre_same(cols, t, k);
        } else {
            lemma_pre_width(t, end, k - 1);
            lemma_pre_same(cols, t, k - 1);
        }
    }
}

proof fn lemma_pre_same(a: Seq<ColumnView>, b: Seq<ColumnView>, k: int)
    requires
        k <= a.len(),
        k <= b.len(),
        forall|i: int| 0 <= i < k ==> a[i] == b[i],
    ensures
        pre_width(a, k) == pre_width(b, k),
    decreases k,
{
    if k > 0 {
        lemma_pre_same(a, b, k - 1);
    }
}

/// As many rows are read at a time as fit into eight megabytes, and one where
/// none does.
pub proof fn law_buffer_rows(itemsize: usize)
    requires
        itemsize > 0,
    ensures
        ({
            let n = buffer_rows(itemsize);
            let budget = 8 * 1024 * 1024int;
            n >= 1 && (n == 1 || n * itemsize <= budget) && (n + 1) * itemsize > budget
        }),
{
    let n = buffer_rows(itemsize);
    let w = itemsize as int;
    if w <= 8388608 {
        assert(n * w <= 8388608 < n * w + w && n >= 1) by (nonlinear_arith)
            requires
                n == 8388608int / w,
                1 <= w <= 8388608,
        ;
        assert((n + 1) * w == n * w + w) by (nonlinear_arith);
    } else {
        assert((1 + 1) * w == 2 * w) by (nonlinear_arith);
    }
}

// Words --------------------------------------------------------------------

/// The code that is shown for elements in the heap is that of their type; of
/// strings and of bits it is a letter.
pub proof fn law_shown_codes(l: Letter, kind: char, size: int)
    requires
        natural(l, kind, size),
    ensures
        kind != 'b' ==> inner_text(l) == seq![kind] + decimal(size as nat),
        l is L ==> inner_text(l) == seq!['?'],
        l is X ==> inner_text(l) == seq!['X'],
        inner_text(Letter::A) == seq!['S'],
{
    lemma_small_decimals();
    if kind != 'b' {
        assert(inner_text(l) =~= seq![kind] + decimal(size as nat));
    }
}

/// The line of a column is its name, set in by four and filled up to a width, the
/// code of its elements, and, where it has them, its shape and its unit.
pub proof fn law_column_line(c: ColumnView, width: nat)
    ensures
        ({
            let line = column_line(c, width);
            let n = c.name.len() as int;
            let at = 4 + if n < width {
                width as int
            } else {
                n
            };
            let code = column_code(c);
            let shape = if column_shape(c) is Some {
                seq![' ', ' '] + column_shape(c)->0
            } else {
                Seq::empty()
            };
            let unit = if c.tunit is Some {
                seq![' ', ' ', '('] + c.tunit->0 + seq![')']
            } else {
                Seq::empty()
            };
            &&& line.take(4) == seq![' ', ' ', ' ', ' ']
            &&& line.subrange(4, 4 + n) == c.name
            &&& forall|i: int| 4 + n <= i < at ==> line[i] == ' '
            &&& line.skip(at) == code + shape + unit + seq!['\n']
        }),
{
    reveal_strlit("    ");
    reveal_strlit("  ");
    reveal_strlit("  (");
    assert("  "@ =~= seq![' ', ' ']);
    assert("  ("@ =~= seq![' ', ' ', '(']);
    let line = column_line(c, width);
    let n = c.name.len() as int;
    let s = spaced(c.name, width);
    assert(line.take(4) =~= seq![' ', ' ', ' ', ' ']);
    assert(line.subrange(4, 4 + n) =~= c.name);
    let at = 4 + s.len() as int;
    assert forall|i: int| 4 + n <= i < at implies line[i] == ' ' by {
        assert(line[i] == s[i - 4]);
    }
    let shape = if column_shape(c) is Some {
        seq![' ', ' '] + column_shape(c)->0
    } else {
        Seq::empty()
    };
    let unit = if c.tunit is Some {
        seq![' ', ' ', '('] + c.tunit->0 + seq![')']
    } else {
        Seq::empty()
    };
    assert(line.skip(at) =~= column_code(c) + shape + unit + seq!['\n']);
}

/// What is shown of the elements of a column is the code of the type that it is
/// read into, and of the shape of its cells the axes, where it has any.
pub proof fn law_shown_column(c: ColumnView)
    ensures
        c.var_kind is None && field_type(c, true) is Some ==> column_code(c) == type_code(
            field_type(c, true)->0,
        ),
        c.var_kind is None && field_type(c, true) is None ==> column_code(c) == type_code(
            field_type(c, false)->0,
        ),
        c.var_kind is Some ==> column_code(c) == inner_text(c.letter),
        c.var_kind is None && cell_shape(c).len() == 0 ==> column_shape(c) is None,
        c.var_kind is None && cell_shape(c).len() > 0 ==> (column_shape(c) matches Some(s) && s
            == seq!['a', 'r', 'r', 'a', 'y', '['] + joined(cell_shape(c)) + seq![']']),
        c.var_kind is Some ==> (column_shape(c) matches Some(s) && s == seq![
            'a',
            'r',
            'r',
            'a',
            'y',
            '[',
            'v',
            'a',
            'r',
            ']',
        ]),
{
    reveal_strlit("array[var]");
    reveal_strlit("array[");
    assert("array["@ =~= seq!['a', 'r', 'r', 'a', 'y', '[']);
    assert("array[var]"@ =~= seq!['a', 'r', 'r', 'a', 'y', '[', 'v', 'a', 'r', ']']);
}

/// A table in words has a line more for a column more, behind those of the others,
/// where that does not change the room for names. Names have room for the longest
/// and four more.
pub proof fn law_lines_of_columns(
    file: Seq<char>,
    index: nat,
    extname: Option<Seq<char>>,
    nrows: nat,
    cols: Seq<ColumnView>,
    c: ColumnView,
)
    requires
        byte_len(c.name) <= longest_name(cols),
    ensures
        table_text(file, index, extname, nrows, cols.push(c)) == table_text(
            file,
            index,
            extname,
            nrows,
            cols,
        ) + column_line(c, longest_name(cols) + 4),
        forall|i: int|
            0 <= i < cols.len() ==> byte_len((#[trigger] cols[i]).name) <= longest_name(cols),
{
    assert(cols.push(c).drop_last() =~= cols);
    assert(table_text(file, index, extname, nrows, cols.push(c)) =~= table_text(
        file,
        index,
        extname,
        nrows,
        cols,
    ) + column_line(c, longest_name(cols) + 4));
    lemma_longest(cols);
}

proof fn lemma_longest(cols: Seq<ColumnView>)
    ensures
        forall|i: int|
            0 <= i < cols.len() ==> byte_len((#[trigger] cols[i]).name) <= longest_name(cols),
    decreases cols.len(),
{
    if cols.len() > 0 {
        let t = cols.drop_last();
        lemma_longest(t);
        assert(forall|i: int| 0 <= i < t.len() ==> t[i] == cols[i]);
    }
}

/// The hint of column number `n` goes into the first card that is labelled with
/// the keyword of its format.
pub proof fn law_hint_placed(cards: Seq<Seq<char>>, n: int, kind: Descriptor, bits: usize, i: int)
    requires
        1 <= n <= 999,
        0 <= i < cards.len(),
        labelled(cards[i], column_key(seq!['T', 'F', 'O', 'R', 'M'], n)),
        forall|j: int|
            0 <= j < i ==> keyword(#[trigger] cards[j]) != Some(
                column_key(seq!['T', 'F', 'O', 'R', 'M'], n),
            ),
    ensures
        hinted(cards, n as nat, kind, bits) matches Some((at, c)) && at == i && c.key == column_key(
            seq!['T', 'F', 'O', 'R', 'M'],
            n,
        ),
{
    reveal_strlit("TFORM");
    assert("TFORM"@ =~= seq!['T', 'F', 'O', 'R', 'M']);
    let key = column_key("TFORM"@, n);
    lemma_column_key("TFORM"@, n);
    lemma_label_keyword(cards[i], key);
    lemma_first_with_at(cards, key, i);
}

proof fn lemma_first_with_at(cards: Seq<Seq<char>>, key: Seq<char>, i: int)
    requires
        key.len() <= 8,
        0 <= i < cards.len(),
        keyword(cards[i]) == Some(key),
        forall|j: int| 0 <= j < i ==> keyword(#[trigger] cards[j]) != Some(key),
    ensures
        first_with(cards, key) == Some(i),
    decreases cards.len(),
{
    let p = cards.drop_last();
    if i < p.len() {
        assert(p[i] == cards[i]);
        assert forall|j: int| 0 <= j < i implies keyword(#[trigger] p[j]) != Some(key) by {
            assert(p[j] == cards[j]);
        }
        lemma_first_with_at(p, key, i);
    } else {
        assert forall|j: int| 0 <= j < p.len() implies keyword(#[trigger] p[j]) != Some(key) by {
            assert(p[j] == cards[j]);
        }
        lemma_none_with(p, key);
    }
}

proof fn lemma_none_with(cards: Seq<Seq<char>>, key: Seq<char>)
    requires
        key.len() <= 8,
        forall|j: int| 0 <= j < cards.len() ==> keyword(#[trigger] cards[j]) != Some(key),
    ensures
        first_with(cards, key) is None,
    decreases cards.len(),
{
    if cards.len() > 0 {
        let p = cards.drop_last();
        assert forall|j: int| 0 <= j < p.len() implies keyword(#[trigger] p[j]) != Some(key) by {
            assert(p[j] == cards[j]);
        }
        lemma_none_with(p, key);
        assert(keyword(cards[cards.len() - 1]) != Some(key));
    }
}

/// The cards of a column that is put in are those of a new table, but that the
/// format of bits in the heap tells how many the longest cell has.
pub proof fn law_inserted_cards(c: WriteColumnView, n: int, hint: Option<usize>, i: int)
    requires
        1 <= n <= 999,
        0 <= i < column_cards(c, n as nat).len(),
    ensures
        ({
            let cards = new_column_cards(c, n as nat, hint);
            let plain = column_cards(c, n as nat);
            &&& cards.len() == plain.len()
            &&& cards[i].key == plain[i].key
            &&& if i == 1 && hint is Some && c.var_kind is Some {
                cards[i].value == CardValueView::Text(
                    seq![
                        '1',
                        if c.var_kind == Some(Descriptor::Q) {
                            'Q'
                        } else {
                            'P'
                        },
                        'X',
                        '(',
                    ] + decimal(hint->0 as nat) + seq![')'],
                )
            } else {
                cards[i].value == plain[i].value
            }
        }),
{
}

/// A column is put in where it is asked for: its cells stand in a row where those
/// of the column at its place started, or behind the last, and the rows are wider
/// by them.
pub proof fn law_insert_plan(
    p: InsertPlan,
    q: InsertRequest,
    cols: Seq<ColumnView>,
    a: ArrayInfo,
    cells: Seq<Vec<VarInput>>,
    t: TablePlace,
    at: int,
)
    requires
        columns_fill(cols, t.row_width as int),
        0 <= at <= cols.len(),
        planned_insert(Ok(p), q, cols, a, cells, t, at),
    ensures
        p.at == at,
        p.pre == if at < cols.len() {
            cols[at].byte_offset
        } else {
            t.row_width
        },
        match p.column {
            InsertColumn::Fixed(n) => a.kind != 'O' && p.row_width == t.row_width
                + n.column.byte_width && p.hint is None && n.column@.name == q.name@,
            InsertColumn::Heap { column, bytes } => a.kind == 'O' && p.row_width == t.row_width
                + column.column.byte_width && column.column@.name == q.name@ && column.heap_end
                == t.pcount + bytes@.len() && p.hint == (if column.column.letter is X {
                Some(most_elements(column.plans@))
            } else {
                None
            }),
        },
{
    lemma_pre_width(cols, t.row_width as int, at);
    if a.kind != 'O' {
        assert(new_column(
            q.name@,
            a,
            opt_text(q.unit),
            q.bits,
            q.inner is Some,
            q.format is Some,
            t.nrows,
        ) is Ok);
    }
}

/// A column is refused whose name is empty or that of another, whatever the case,
/// or where the heap does not start right behind the rows. Else it goes where it
/// is asked for.
pub proof fn law_insert_refused(
    uppers: Seq<Seq<char>>,
    heap: Option<EditError>,
    name: Seq<char>,
    upper: Seq<char>,
    t: Target,
    after: Seq<char>,
    before: Seq<char>,
)
    ensures
        ({
            let r = insert_place(uppers, heap, name, upper, t, after, before);
            if heap is Some {
                r == Err::<int, EditError>(heap->0)
            } else if name.len() == 0 {
                r == Err::<int, EditError>(EditError::EmptyName)
            } else if uppers.contains(upper) {
                r is Err
            } else {
                r == insert_index(uppers, t, after, before)
            }
        }),
{
    law_first_text(uppers, upper);
}

/// The cards of a column go before the last card that ends the header, in their
/// order, and leave all others where they are.
pub proof fn law_new_cards_before_end(cards: Seq<Seq<char>>, new: Seq<Seq<char>>)
    ensures
        match ended_with(cards, new) {
            Ok(after) => exists|i: int|
                0 <= i < cards.len() && opens_with(#[trigger] cards[i], 3, seq!['E', 'N', 'D'])
                    && after == cards.take(i) + new + cards.skip(i) && forall|j: int|
                    i < j < cards.len() ==> !opens_with(
                        #[trigger] cards[j],
                        3,
                        seq!['E', 'N', 'D'],
                    ),
            Err(_) => forall|j: int|
                0 <= j < cards.len() ==> !opens_with(#[trigger] cards[j], 3, seq!['E', 'N', 'D']),
        },
{
    reveal_strlit("END");
    assert("END"@ =~= seq!['E', 'N', 'D']);
    lemma_last_end_place(cards);
    if let Some(i) = last_end(cards) {
        assert(opens_with(cards[i], 3, "END"@));
    }
}

proof fn lemma_last_end_place(cards: Seq<Seq<char>>)
    ensures
        match last_end(cards) {
            Some(i) => 0 <= i < cards.len() && opens_with(cards[i], 3, "END"@) && forall|j: int|
                i < j < cards.len() ==> !opens_with(#[trigger] cards[j], 3, "END"@),
            None => forall|j: int|
                0 <= j < cards.len() ==> !opens_with(#[trigger] cards[j], 3, "END"@),
        },
    decreases cards.len(),
{
    if cards.len() > 0 {
        let t = cards.drop_last();
        lemma_last_end_place(t);
        assert(forall|j: int| 0 <= j < t.len() ==> t[j] == cards[j]);
    }
}

/// A table without columns in words: lines for its file, its number, its type, its
/// name where it has one, and how many rows it has.
pub proof fn law_table_in_words(
    file: Seq<char>,
    index: nat,
    extname: Option<Seq<char>>,
    nrows: nat,
)
    ensures
        table_text(file, index, extname, nrows, Seq::empty()) == "  file: "@ + file
            + "\n  extension: "@ + decimal(index) + "\n  type: BINARY_TBL\n"@ + (if extname is Some {
            "  extname: "@ + extname->0 + seq!['\n']
        } else {
            Seq::empty()
        }) + "  rows: "@ + decimal(nrows) + "\n  column info:\n"@,
{
    reveal_strlit("  file: ");
    reveal_strlit("  extension: ");
    reveal_strlit("\n  extension: ");
    reveal_strlit("  type: ");
    reveal_strlit("BINARY_TBL");
    reveal_strlit("\n  type: BINARY_TBL\n");
    reveal_strlit("  extname: ");
    reveal_strlit("  rows: ");
    reveal_strlit("  column info:");
    reveal_strlit("\n  column info:\n");
    let a = table_text(file, index, extname, nrows, Seq::empty());
    let b = "  file: "@ + file + "\n  extension: "@ + decimal(index)
        + "\n  type: BINARY_TBL\n"@ + (if extname is Some {
        "  extname: "@ + extname->0 + seq!['\n']
    } else {
        Seq::empty()
    }) + "  rows: "@ + decimal(nrows) + "\n  column info:\n"@;
    assert("\n  extension: "@ =~= seq!['\n'] + "  extension: "@);
    assert("\n  type: BINARY_TBL\n"@ =~= seq!['\n'] + "  type: "@ + "BINARY_TBL"@ + seq!['\n']);
    assert("\n  column info:\n"@ =~= seq!['\n'] + "  column info:"@ + seq!['\n']);
    assert(a =~= b);
}

} // verus!
