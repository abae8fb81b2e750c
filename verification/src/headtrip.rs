//! What the header of a new table says reads back.

use vstd::prelude::*;

use crate::columns::{Descriptor, columns_ok};
use crate::create::{
    BitColumns, Field, InnerTypes, WriteColumnView, column_for, columns_for, table_for,
};
use crate::header::{
    CardValueView, CardView, all_column_cards, column_cards, end_card, int_card, keywords_of,
    law_created_column_reads_back, numbered, offset_bits, opt_text_card, reads_as, table_cards,
    text_card, tform_text, total_width, uint_card,
};
use crate::keywords::{
    KeywordsView, TableKeywords, columns_from, keyword_views, lemma_columns_from, row_end,
    table_columns,
};
use crate::text::{decimal, lemma_decimal_value};

verus! {

// Columns ------------------------------------------------------------------

/// The keywords of the columns of a new table.
pub open spec fn all_keywords(cols: Seq<WriteColumnView>) -> Seq<KeywordsView> {
    Seq::new(cols.len(), |i: int| keywords_of(cols[i]))
}

proof fn lemma_width_part(cols: Seq<WriteColumnView>, n: int)
    requires
        0 <= n <= cols.len(),
    ensures
        0 <= total_width(cols.take(n)) <= total_width(cols),
    decreases cols.len(),
{
    if n == cols.len() {
        assert(cols.take(n) =~= cols);
        if n > 0 {
            lemma_width_part(cols.drop_last(), n - 1);
        }
    } else {
        lemma_width_part(cols.drop_last(), n);
        assert(cols.drop_last().take(n) =~= cols.take(n));
    }
}

proof fn lemma_columns_back(
    f: Seq<Field>,
    uppers: Seq<Seq<char>>,
    inner: Option<InnerTypes>,
    bits: Option<BitColumns>,
    descriptor: Descriptor,
    k: Seq<KeywordsView>,
    n: nat,
)
    requires
        n <= f.len(),
        n <= k.len(),
        columns_for(f, uppers, inner, bits, descriptor, n) is Ok,
        forall|i: int, j: int|
            0 <= i < f.len() && 0 <= j < f[i].shape@.len() ==> #[trigger] f[i].shape@[j] > 0,
        total_width(columns_for(f, uppers, inner, bits, descriptor, n)->Ok_0) <= usize::MAX,
        forall|i: int|
            0 <= i < n ==> #[trigger] k[i] == keywords_of(
                columns_for(f, uppers, inner, bits, descriptor, n)->Ok_0[i],
            ),
    ensures
        ({
            let cols = columns_for(f, uppers, inner, bits, descriptor, n)->Ok_0;
            let back = columns_from(k, n);
            &&& cols.len() == n
            &&& back is Ok
            &&& back->Ok_0.len() == n
            &&& row_end(back->Ok_0) == total_width(cols)
            &&& forall|i: int| 0 <= i < n ==> reads_as(f[i], cols[i], #[trigger] back->Ok_0[i])
        }),
    decreases n,
{
    if n > 0 {
        let cols = columns_for(f, uppers, inner, bits, descriptor, n)->Ok_0;
        let m = (n - 1) as nat;
        let prev = columns_for(f, uppers, inner, bits, descriptor, m)->Ok_0;
        let c = column_for(f[n - 1], uppers[n - 1], inner, bits, descriptor)->Ok_0;
        lemma_columns_len(f, uppers, inner, bits, descriptor, m);
        assert(cols == prev.push(c));
        assert(cols.drop_last() =~= prev);
        lemma_width_part(cols, cols.len() - 1);
        assert(cols.take(cols.len() - 1) =~= prev);
        assert forall|i: int| 0 <= i < m implies #[trigger] k[i] == keywords_of(prev[i]) by {
            assert(cols[i] == prev[i]);
        }
        lemma_columns_back(f, uppers, inner, bits, descriptor, k, m);
        let before = columns_from(k, m)->Ok_0;
        lemma_columns_from(k, m);
        let offset = row_end(before) as usize;
        law_created_column_reads_back(
            f[n - 1],
            uppers[n - 1],
            inner,
            bits,
            descriptor,
            n as u64,
            offset,
        );
        assert(k[n - 1] == keywords_of(c));
    }
}

/// The columns of a new table read back as the fields that they were made of,
/// and fill the rows.
pub proof fn law_created_table_reads_back(
    f: Vec<Field>,
    uppers: Seq<Seq<char>>,
    inner: Option<InnerTypes>,
    bits: Option<BitColumns>,
    descriptor: Descriptor,
    t: TableKeywords,
)
    requires
        table_for(Some(f), uppers, inner, bits, descriptor) is Ok,
        forall|i: int, j: int|
            0 <= i < f@.len() && 0 <= j < f@[i].shape@.len() ==> #[trigger] f@[i].shape@[j] > 0,
        ({
            let cols = table_for(Some(f), uppers, inner, bits, descriptor)->Ok_0;
            &&& total_width(cols) <= usize::MAX
            &&& t.naxis1 matches Some(w) && w == total_width(cols)
            &&& t.tfields matches Some(n) && n == cols.len()
            &&& keyword_views(t.columns@) == all_keywords(cols)
        }),
    ensures
        ({
            let cols = table_for(Some(f), uppers, inner, bits, descriptor)->Ok_0;
            let back = table_columns(t);
            &&& back is Ok
            &&& back->Ok_0.len() == f@.len()
            &&& columns_ok(back->Ok_0, total_width(cols))
            &&& forall|i: int|
                0 <= i < f@.len() ==> reads_as(f@[i], cols[i], #[trigger] back->Ok_0[i])
        }),
{
    let cols = table_for(Some(f), uppers, inner, bits, descriptor)->Ok_0;
    let k = keyword_views(t.columns@);
    let n = f@.len();
    lemma_columns_len(f@, uppers, inner, bits, descriptor, n);
    assert forall|i: int| 0 <= i < n implies #[trigger] k[i] == keywords_of(cols[i]) by {
        assert(all_keywords(cols)[i] == keywords_of(cols[i]));
    }
    lemma_columns_back(f@, uppers, inner, bits, descriptor, k, n);
    lemma_columns_from(k, n);
}

proof fn lemma_columns_len(
    f: Seq<Field>,
    uppers: Seq<Seq<char>>,
    inner: Option<InnerTypes>,
    bits: Option<BitColumns>,
    descriptor: Descriptor,
    n: nat,
)
    requires
        columns_for(f, uppers, inner, bits, descriptor, n) is Ok,
    ensures
        columns_for(f, uppers, inner, bits, descriptor, n)->Ok_0.len() == n,
    decreases n,
{
    if n > 0 {
        lemma_columns_len(f, uppers, inner, bits, descriptor, (n - 1) as nat);
    }
}

// Cards --------------------------------------------------------------------

/// The value of the first card with a keyword.
pub open spec fn found(cards: Seq<CardView>, key: Seq<char>) -> Option<CardValueView>
    decreases cards.len(),
{
    if cards.len() == 0 {
        None
    } else if cards[0].key == key {
        Some(cards[0].value)
    } else {
        found(cards.drop_first(), key)
    }
}

proof fn lemma_found_none(cards: Seq<CardView>, key: Seq<char>)
    requires
        forall|i: int| 0 <= i < cards.len() ==> (#[trigger] cards[i]).key != key,
    ensures
        found(cards, key) is None,
    decreases cards.len(),
{
    if cards.len() > 0 {
        assert(cards[0].key != key);
        assert forall|i: int| 0 <= i < cards.drop_first().len() implies (
        #[trigger] cards.drop_first()[i]).key != key by {
            assert(cards[i + 1].key != key);
        }
        lemma_found_none(cards.drop_first(), key);
    }
}

proof fn lemma_found_join(a: Seq<CardView>, b: Seq<CardView>, key: Seq<char>)
    ensures
        found(a + b, key) == match found(a, key) {
            Some(v) => Some(v),
            None => found(b, key),
        },
    decreases a.len(),
{
    if a.len() == 0 {
        assert(a + b =~= b);
    } else {
        assert((a + b).drop_first() =~= a.drop_first() + b);
        lemma_found_join(a.drop_first(), b, key);
    }
}

/// Whether a text is the stem of a keyword of columns.
pub open spec fn is_stem(s: Seq<char>) -> bool {
    s == "TTYPE"@ || s == "TFORM"@ || s == "TDIM"@ || s == "TZERO"@ || s == "TUNIT"@ || s
        == "TSCAL"@ || s == "TNULL"@
}

/// What the card of a column with a stem holds.
pub open spec fn column_value(c: WriteColumnView, stem: Seq<char>) -> Option<CardValueView> {
    if stem == "TTYPE"@ {
        Some(CardValueView::Text(c.name))
    } else if stem == "TFORM"@ {
        Some(CardValueView::Text(tform_text(c.letter, c.repeat, c.var_kind)))
    } else if stem == "TDIM"@ {
        match c.tdim {
            Some(s) => Some(CardValueView::Text(s)),
            None => None,
        }
    } else if stem == "TZERO"@ {
        match c.tzero {
            Some(v) => Some(CardValueView::Uint(v)),
            None => None,
        }
    } else if stem == "TUNIT"@ {
        match c.tunit {
            Some(s) => Some(CardValueView::Text(s)),
            None => None,
        }
    } else {
        None
    }
}

proof fn lemma_stems()
    ensures
        "TTYPE"@ == seq!['T', 'T', 'Y', 'P', 'E'],
        "TFORM"@ == seq!['T', 'F', 'O', 'R', 'M'],
        "TDIM"@ == seq!['T', 'D', 'I', 'M'],
        "TZERO"@ == seq!['T', 'Z', 'E', 'R', 'O'],
        "TUNIT"@ == seq!['T', 'U', 'N', 'I', 'T'],
        "TSCAL"@ == seq!['T', 'S', 'C', 'A', 'L'],
        "TNULL"@ == seq!['T', 'N', 'U', 'L', 'L'],
{
    reveal_strlit("TTYPE");
    reveal_strlit("TFORM");
    reveal_strlit("TDIM");
    reveal_strlit("TZERO");
    reveal_strlit("TUNIT");
    reveal_strlit("TSCAL");
    reveal_strlit("TNULL");
    assert("TTYPE"@ =~= seq!['T', 'T', 'Y', 'P', 'E']);
    assert("TFORM"@ =~= seq!['T', 'F', 'O', 'R', 'M']);
    assert("TDIM"@ =~= seq!['T', 'D', 'I', 'M']);
    assert("TZERO"@ =~= seq!['T', 'Z', 'E', 'R', 'O']);
    assert("TUNIT"@ =~= seq!['T', 'U', 'N', 'I', 'T']);
    assert("TSCAL"@ =~= seq!['T', 'S', 'C', 'A', 'L']);
    assert("TNULL"@ =~= seq!['T', 'N', 'U', 'L', 'L']);
}

/// Keywords of columns are the same only where stem and number are.
proof fn lemma_key(a: Seq<char>, m: nat, b: Seq<char>, n: nat)
    requires
        is_stem(a),
        is_stem(b),
        numbered(a, m) == numbered(b, n),
    ensures
        a == b,
        m == n,
{
    lemma_stems();
    let k = numbered(a, m);
    assert(k[1] == a[1]);
    assert(numbered(b, n)[1] == b[1]);
    assert(a == b);
    assert(k.skip(a.len() as int) =~= decimal(m));
    assert(numbered(b, n).skip(b.len() as int) =~= decimal(n));
    lemma_decimal_value(m);
    lemma_decimal_value(n);
}

proof fn lemma_column_found(c: WriteColumnView, n: nat, stem: Seq<char>, m: nat)
    requires
        is_stem(stem),
    ensures
        found(column_cards(c, n), numbered(stem, m)) == if m == n {
            column_value(c, stem)
        } else {
            None
        },
{
    let cards = column_cards(c, n);
    let key = numbered(stem, m);
    lemma_stems();
    let first = seq![
        text_card(numbered("TTYPE"@, n), c.name, "label for column"@),
        text_card(
            numbered("TFORM"@, n),
            tform_text(c.letter, c.repeat, c.var_kind),
            "data format of column"@,
        ),
    ];
    let tdim = opt_text_card(
        numbered("TDIM"@, n),
        c.tdim,
        "array dimensions (FORTRAN, fastest-first)"@,
    );
    let tzero = match c.tzero {
        Some(v) => seq![
            uint_card(
                numbered("TZERO"@, n),
                v,
                "offset for unsigned integer (unsigned-int trick)"@,
            ),
        ],
        None => Seq::empty(),
    };
    let tunit = opt_text_card(numbered("TUNIT"@, n), c.tunit, "physical unit of column"@);
    assert(cards == first + tdim + tzero + tunit);
    lemma_found_join(first + tdim + tzero, tunit, key);
    lemma_found_join(first + tdim, tzero, key);
    lemma_found_join(first, tdim, key);
    if numbered("TTYPE"@, n) == key {
        lemma_key("TTYPE"@, n, stem, m);
    }
    if numbered("TFORM"@, n) == key {
        lemma_key("TFORM"@, n, stem, m);
    }
    if numbered("TDIM"@, n) == key {
        lemma_key("TDIM"@, n, stem, m);
    }
    if numbered("TZERO"@, n) == key {
        lemma_key("TZERO"@, n, stem, m);
    }
    if numbered("TUNIT"@, n) == key {
        lemma_key("TUNIT"@, n, stem, m);
    }
    reveal_with_fuel(found, 3);
    assert(first.drop_first() =~= seq![first[1]]);
    assert(first.drop_first().drop_first() =~= Seq::empty());
    assert("TTYPE"@[1] == 'T' && "TFORM"@[1] == 'F' && "TDIM"@[1] == 'D' && "TZERO"@[1] == 'Z'
        && "TUNIT"@[1] == 'U' && "TSCAL"@[1] == 'S' && "TNULL"@[1] == 'N');
}

proof fn lemma_columns_found(cols: Seq<WriteColumnView>, stem: Seq<char>, m: nat)
    requires
        is_stem(stem),
    ensures
        found(all_column_cards(cols), numbered(stem, m)) == if 1 <= m <= cols.len() {
            column_value(cols[m - 1], stem)
        } else {
            None
        },
    decreases cols.len(),
{
    if cols.len() > 0 {
        let key = numbered(stem, m);
        lemma_columns_found(cols.drop_last(), stem, m);
        lemma_column_found(cols.last(), cols.len(), stem, m);
        lemma_found_join(
            all_column_cards(cols.drop_last()),
            column_cards(cols.last(), cols.len()),
            key,
        );
    }
}

/// The cards of a new table hold the keywords of its columns, and these alone:
/// what a reader finds under the keyword of a column is what the column says.
pub proof fn law_cards_hold_columns(
    cols: Seq<WriteColumnView>,
    nrows: i64,
    extname: Option<Seq<char>>,
    extver: Option<i64>,
    stem: Seq<char>,
    n: nat,
)
    requires
        is_stem(stem),
    ensures
        found(table_cards(cols, nrows, extname, extver), numbered(stem, n)) == if 1 <= n
            <= cols.len() {
            column_value(cols[n - 1], stem)
        } else {
            None
        },
{
    let key = numbered(stem, n);
    let cards = table_cards(cols, nrows, extname, extver);
    lemma_stems();
    assert(key[0] == stem[0] && key[1] == stem[1] && key[2] == stem[2]);
    let head = table_head(cols, nrows);
    let name = opt_text_card("EXTNAME"@, extname, "name of this HDU"@);
    let ver = match extver {
        Some(v) => seq![int_card("EXTVER"@, v, "extension version"@)],
        None => Seq::empty(),
    };
    let columns = all_column_cards(cols);
    assert(cards == head + name + ver + columns + seq![end_card()]);
    lemma_found_join(head + name + ver + columns, seq![end_card()], key);
    lemma_found_join(head + name + ver, columns, key);
    lemma_found_join(head + name, ver, key);
    lemma_found_join(head, name, key);
    lemma_columns_found(cols, stem, n);
    lemma_head_keys();
    lemma_found_none(head, key);
    lemma_found_none(name, key);
    lemma_found_none(ver, key);
    lemma_found_none(seq![end_card()], key);
}

/// The first cards of a new table.
spec fn table_head(cols: Seq<WriteColumnView>, nrows: i64) -> Seq<CardView> {
    seq![
        text_card("XTENSION"@, "BINTABLE"@, "binary table extension"@),
        int_card("BITPIX"@, 8, "8-bit bytes"@),
        int_card("NAXIS"@, 2, "2-dimensional binary table"@),
        int_card("NAXIS1"@, total_width(cols) as i64, "width of table in bytes"@),
        int_card("NAXIS2"@, nrows, "number of rows in table"@),
        int_card("PCOUNT"@, 0, "size of special data area"@),
        int_card("GCOUNT"@, 1, "one data group (required keyword)"@),
        int_card("TFIELDS"@, cols.len() as i64, "number of columns"@),
    ]
}

proof fn lemma_head_keys()
    ensures
        "XTENSION"@[0] == 'X',
        "BITPIX"@[0] == 'B',
        "NAXIS"@ == seq!['N', 'A', 'X', 'I', 'S'],
        "NAXIS1"@ == seq!['N', 'A', 'X', 'I', 'S', '1'],
        "NAXIS2"@ == seq!['N', 'A', 'X', 'I', 'S', '2'],
        "PCOUNT"@[0] == 'P',
        "GCOUNT"@[0] == 'G',
        "TFIELDS"@ == seq!['T', 'F', 'I', 'E', 'L', 'D', 'S'],
        "EXTNAME"@[0] == 'E',
        "EXTVER"@[0] == 'E',
        "END"@[0] == 'E',
{
    reveal_strlit("XTENSION");
    reveal_strlit("BITPIX");
    reveal_strlit("NAXIS");
    reveal_strlit("NAXIS1");
    reveal_strlit("NAXIS2");
    reveal_strlit("PCOUNT");
    reveal_strlit("GCOUNT");
    reveal_strlit("TFIELDS");
    reveal_strlit("EXTNAME");
    reveal_strlit("EXTVER");
    reveal_strlit("END");
    assert("NAXIS"@ =~= seq!['N', 'A', 'X', 'I', 'S']);
    assert("NAXIS1"@ =~= seq!['N', 'A', 'X', 'I', 'S', '1']);
    assert("NAXIS2"@ =~= seq!['N', 'A', 'X', 'I', 'S', '2']);
    assert("TFIELDS"@ =~= seq!['T', 'F', 'I', 'E', 'L', 'D', 'S']);
}

/// The cards of a new table hold its sizes.
pub proof fn law_cards_hold_sizes(
    cols: Seq<WriteColumnView>,
    nrows: i64,
    extname: Option<Seq<char>>,
    extver: Option<i64>,
)
    ensures
        ({
            let cards = table_cards(cols, nrows, extname, extver);
            &&& found(cards, "NAXIS1"@) == Some(CardValueView::Int(total_width(cols) as i64))
            &&& found(cards, "NAXIS2"@) == Some(CardValueView::Int(nrows))
            &&& found(cards, "PCOUNT"@) == Some(CardValueView::Int(0))
            &&& found(cards, "TFIELDS"@) == Some(CardValueView::Int(cols.len() as i64))
        }),
{
    let cards = table_cards(cols, nrows, extname, extver);
    let head = table_head(cols, nrows);
    lemma_head_keys();
    let name = opt_text_card("EXTNAME"@, extname, "name of this HDU"@);
    let ver = match extver {
        Some(v) => seq![int_card("EXTVER"@, v, "extension version"@)],
        None => Seq::empty(),
    };
    let rest = name + ver + all_column_cards(cols) + seq![end_card()];
    assert(cards =~= head + rest);
    assert("NAXIS"@.len() == 5 && "NAXIS1"@[5] == '1' && "NAXIS2"@[5] == '2');
    lemma_found_at(head, 3, "NAXIS1"@);
    lemma_found_at(head, 4, "NAXIS2"@);
    lemma_found_at(head, 5, "PCOUNT"@);
    lemma_found_at(head, 7, "TFIELDS"@);
    lemma_found_join(head, rest, "NAXIS1"@);
    lemma_found_join(head, rest, "NAXIS2"@);
    lemma_found_join(head, rest, "PCOUNT"@);
    lemma_found_join(head, rest, "TFIELDS"@);
}

proof fn lemma_found_at(cards: Seq<CardView>, i: int, key: Seq<char>)
    requires
        0 <= i < cards.len(),
        cards[i].key == key,
        forall|j: int| 0 <= j < i ==> (#[trigger] cards[j]).key != key,
    ensures
        found(cards, key) == Some(cards[i].value),
    decreases i,
{
    if i > 0 {
        assert(cards[0].key != key);
        let rest = cards.drop_first();
        assert forall|j: int| 0 <= j < i - 1 implies (#[trigger] rest[j]).key != key by {
            assert(cards[j + 1].key != key);
        }
        lemma_found_at(rest, i - 1, key);
    }
}

// Header -------------------------------------------------------------------

/// The text of a card.
pub open spec fn text_in(v: Option<CardValueView>) -> Option<Seq<char>> {
    match v {
        Some(CardValueView::Text(s)) => Some(s),
        _ => None,
    }
}

/// The whole number of a card.
pub open spec fn int_in(v: Option<CardValueView>) -> Option<i64> {
    match v {
        Some(CardValueView::Int(i)) => Some(i),
        _ => None,
    }
}

/// The offset of values in a card, as the bits of a 64-bit float.
pub open spec fn offset_in(v: Option<CardValueView>) -> Option<u64> {
    match v {
        Some(CardValueView::Uint(u)) => Some(offset_bits(u)),
        _ => None,
    }
}

/// The keywords of the `n`-th column, as a reader finds them among the cards of
/// a new table.
pub open spec fn keywords_in(cards: Seq<CardView>, n: nat) -> KeywordsView {
    KeywordsView {
        ttype: text_in(found(cards, numbered("TTYPE"@, n))),
        tform: text_in(found(cards, numbered("TFORM"@, n))),
        tdim: text_in(found(cards, numbered("TDIM"@, n))),
        tscal: offset_in(found(cards, numbered("TSCAL"@, n))),
        tzero: offset_in(found(cards, numbered("TZERO"@, n))),
        tnull: int_in(found(cards, numbered("TNULL"@, n))),
        tunit: text_in(found(cards, numbered("TUNIT"@, n))),
    }
}

/// Whether keywords are those that a reader finds among the cards of a new
/// table: its sizes, and the keywords of as many columns as it has.
pub open spec fn found_in(t: TableKeywords, cards: Seq<CardView>) -> bool {
    &&& t.naxis1 == int_in(found(cards, "NAXIS1"@))
    &&& t.naxis2 == int_in(found(cards, "NAXIS2"@))
    &&& t.tfields == int_in(found(cards, "TFIELDS"@))
    &&& t.tfields == Some(t.columns@.len() as i64)
    &&& forall|i: int|
        0 <= i < t.columns@.len() ==> #[trigger] keyword_views(t.columns@)[i] == keywords_in(
            cards,
            (i + 1) as nat,
        )
}

proof fn lemma_keywords_in(
    cols: Seq<WriteColumnView>,
    nrows: i64,
    extname: Option<Seq<char>>,
    extver: Option<i64>,
    n: nat,
)
    requires
        1 <= n <= cols.len(),
    ensures
        keywords_in(table_cards(cols, nrows, extname, extver), n) == keywords_of(cols[n - 1]),
{
    lemma_stems();
    assert("TTYPE"@[1] == 'T' && "TFORM"@[1] == 'F' && "TDIM"@[1] == 'D' && "TZERO"@[1] == 'Z'
        && "TUNIT"@[1] == 'U' && "TSCAL"@[1] == 'S' && "TNULL"@[1] == 'N');
    law_cards_hold_columns(cols, nrows, extname, extver, "TTYPE"@, n);
    law_cards_hold_columns(cols, nrows, extname, extver, "TFORM"@, n);
    law_cards_hold_columns(cols, nrows, extname, extver, "TDIM"@, n);
    law_cards_hold_columns(cols, nrows, extname, extver, "TSCAL"@, n);
    law_cards_hold_columns(cols, nrows, extname, extver, "TZERO"@, n);
    law_cards_hold_columns(cols, nrows, extname, extver, "TNULL"@, n);
    law_cards_hold_columns(cols, nrows, extname, extver, "TUNIT"@, n);
}

/// The columns that a reader makes of the cards of a new table are those that
/// the table was made with: as many, in their order, each with its name, layout,
/// dimensions, offset and unit. They fill the rows, and the rows are as many as
/// were asked for.
pub proof fn law_created_header_reads_back(
    f: Vec<Field>,
    uppers: Seq<Seq<char>>,
    inner: Option<InnerTypes>,
    bits: Option<BitColumns>,
    descriptor: Descriptor,
    nrows: i64,
    extname: Option<Seq<char>>,
    extver: Option<i64>,
    t: TableKeywords,
)
    requires
        table_for(Some(f), uppers, inner, bits, descriptor) is Ok,
        forall|i: int, j: int|
            0 <= i < f@.len() && 0 <= j < f@[i].shape@.len() ==> #[trigger] f@[i].shape@[j] > 0,
        f@.len() <= i64::MAX,
        t.columns@.len() <= i64::MAX,
        ({
            let cols = table_for(Some(f), uppers, inner, bits, descriptor)->Ok_0;
            &&& total_width(cols) <= i64::MAX
            &&& total_width(cols) <= usize::MAX
            &&& found_in(t, table_cards(cols, nrows, extname, extver))
        }),
    ensures
        ({
            let cols = table_for(Some(f), uppers, inner, bits, descriptor)->Ok_0;
            let back = table_columns(t);
            &&& t.naxis1 == Some(total_width(cols) as i64)
            &&& t.naxis2 == Some(nrows)
            &&& back is Ok
            &&& back->Ok_0.len() == f@.len()
            &&& columns_ok(back->Ok_0, total_width(cols))
            &&& forall|i: int|
                0 <= i < f@.len() ==> reads_as(f@[i], cols[i], #[trigger] back->Ok_0[i])
        }),
{
    let cols = table_for(Some(f), uppers, inner, bits, descriptor)->Ok_0;
    let cards = table_cards(cols, nrows, extname, extver);
    lemma_columns_len(f@, uppers, inner, bits, descriptor, f@.len());
    law_cards_hold_sizes(cols, nrows, extname, extver);
    lemma_width_part(cols, 0);
    let k = keyword_views(t.columns@);
    assert(k.len() == cols.len());
    assert forall|i: int| 0 <= i < k.len() implies #[trigger] k[i] == all_keywords(cols)[i] by {
        lemma_keywords_in(cols, nrows, extname, extver, (i + 1) as nat);
    }
    assert(k =~= all_keywords(cols));
    law_created_table_reads_back(f, uppers, inner, bits, descriptor, t);
}

} // verus!
