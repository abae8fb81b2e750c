//! The header of a new table, and what reading it gives back.

use vstd::prelude::*;

use crate::columns::{
    ColumnView, Descriptor, Letter, ONE_BITS, TWO_15_BITS, TWO_31_BITS, TWO_63_BITS, cell_bytes,
    column_ok, lemma_product_add, lemma_product_one, lemma_product_reverse, letter_char,
    letter_for, letter_sign, opt_text, product,
};
use crate::create::{
    BitColumns, Field, InnerTypes, WriteColumn, WriteColumnView, column_for,
    dtype_to_write_columns, element_count, field_tdim, field_uppers, fixed_column, joined,
    lemma_shape_product, scalar_class, table_for, tdim_text, wants_bits, write_views,
};
use crate::error::{CreateError, HeaderError};
use crate::fields::{NumpyType, cell_shape, field_type};
use crate::keywords::{
    KeywordsView, Tform, before_letter, column_from, comma_parts, dims_of, lemma_comma_parts,
    tdim_dims, tform_pieces,
};
use crate::text::{
    all_digits, chars_of, decimal, decimal_of, is_digit, is_letter, is_white, law_decimal_parses,
    lemma_decimal_value, string_of, trimmed,
};

verus! {

// Cards --------------------------------------------------------------------

/// The value of a header card.
#[derive(Debug)]
pub enum CardValue {
    Text(String),
    Int(i64),
    Uint(u64),
    /// The card that ends a header: it has neither value nor comment.
    End,
}

/// A card of a header: a keyword, its value and a comment.
#[derive(Debug)]
pub struct Card {
    pub key: String,
    pub value: CardValue,
    pub comment: String,
}

/// The value of a card, with its text as a sequence.
pub enum CardValueView {
    Text(Seq<char>),
    Int(i64),
    Uint(u64),
    End,
}

/// A card, with its texts as sequences.
pub struct CardView {
    pub key: Seq<char>,
    pub value: CardValueView,
    pub comment: Seq<char>,
}

impl View for Card {
    type V = CardView;

    open spec fn view(&self) -> CardView {
        CardView {
            key: self.key@,
            value: match self.value {
                CardValue::Text(s) => CardValueView::Text(s@),
                CardValue::Int(v) => CardValueView::Int(v),
                CardValue::Uint(v) => CardValueView::Uint(v),
                CardValue::End => CardValueView::End,
            },
            comment: self.comment@,
        }
    }
}

/// The views of a list of cards.
pub open spec fn card_views(c: Seq<Card>) -> Seq<CardView> {
    Seq::new(c.len(), |i: int| c[i]@)
}

/// A card with a text.
pub open spec fn text_card(key: Seq<char>, value: Seq<char>, comment: Seq<char>) -> CardView {
    CardView { key, value: CardValueView::Text(value), comment }
}

/// A card with a number.
pub open spec fn int_card(key: Seq<char>, value: i64, comment: Seq<char>) -> CardView {
    CardView { key, value: CardValueView::Int(value), comment }
}

/// A card with an unsigned number.
pub open spec fn uint_card(key: Seq<char>, value: u64, comment: Seq<char>) -> CardView {
    CardView { key, value: CardValueView::Uint(value), comment }
}

/// The card that ends a header.
pub open spec fn end_card() -> CardView {
    CardView { key: "END"@, value: CardValueView::End, comment: Seq::empty() }
}

/// The keyword of a column: a stem and the number of the column.
pub open spec fn numbered(stem: Seq<char>, n: nat) -> Seq<char> {
    stem + decimal(n)
}

/// The keyword of a column.
pub fn numbered_key(stem: &str, n: u64) -> (r: String)
    ensures
        r@ == numbered(stem@, n as nat),
{
    let mut c: Vec<char> = chars_of(stem);
    let mut d: Vec<char> = decimal_of(n);
    c.append(&mut d);
    assert(c@ =~= numbered(stem@, n as nat));
    string_of(&c)
}

fn push_text(cards: &mut Vec<Card>, key: String, value: String, comment: &str)
    ensures
        card_views(final(cards)@) == card_views(old(cards)@).push(
            text_card(key@, value@, comment@),
        ),
{
    let ghost k = key@;
    let ghost v = value@;
    cards.push(Card { key, value: CardValue::Text(value), comment: comment.to_owned() });
    assert(card_views(cards@) =~= card_views(old(cards)@).push(text_card(k, v, comment@)));
}

fn push_int(cards: &mut Vec<Card>, key: String, value: i64, comment: &str)
    ensures
        card_views(final(cards)@) == card_views(old(cards)@).push(
            int_card(key@, value, comment@),
        ),
{
    let ghost k = key@;
    cards.push(Card { key, value: CardValue::Int(value), comment: comment.to_owned() });
    assert(card_views(cards@) =~= card_views(old(cards)@).push(int_card(k, value, comment@)));
}

fn push_uint(cards: &mut Vec<Card>, key: String, value: u64, comment: &str)
    ensures
        card_views(final(cards)@) == card_views(old(cards)@).push(
            uint_card(key@, value, comment@),
        ),
{
    let ghost k = key@;
    cards.push(Card { key, value: CardValue::Uint(value), comment: comment.to_owned() });
    assert(card_views(cards@) =~= card_views(old(cards)@).push(uint_card(k, value, comment@)));
}

// The header ---------------------------------------------------------------

/// The character of a descriptor.
pub open spec fn descriptor_sign(d: Descriptor) -> char {
    match d {
        Descriptor::P => 'P',
        Descriptor::Q => 'Q',
    }
}

/// The text of a TFORM: for descriptors `1P` or `1Q` and the element type, for
/// others the repeat count and the type.
pub open spec fn tform_text(letter: Letter, repeat: usize, kind: Option<Descriptor>) -> Seq<char> {
    match kind {
        Some(d) => seq!['1', descriptor_sign(d), letter_sign(letter)],
        None => decimal(repeat as nat).push(letter_sign(letter)),
    }
}

/// The text of a TFORM.
pub fn tform_text_of(letter: Letter, repeat: usize, kind: Option<Descriptor>) -> (r: String)
    ensures
        r@ == tform_text(letter, repeat, kind),
{
    let c: Vec<char> = match kind {
        Some(d) => {
            let sign: char = match d {
                Descriptor::P => 'P',
                Descriptor::Q => 'Q',
            };
            vec!['1', sign, letter_char(letter)]
        },
        None => {
            let mut c: Vec<char> = decimal_of(repeat as u64);
            c.push(letter_char(letter));
            c
        },
    };
    assert(c@ =~= tform_text(letter, repeat, kind));
    string_of(&c)
}

/// The optional card of an optional text.
pub open spec fn opt_text_card(key: Seq<char>, value: Option<Seq<char>>, comment: Seq<char>) -> Seq<
    CardView,
> {
    match value {
        Some(s) => seq![text_card(key, s, comment)],
        None => Seq::empty(),
    }
}

/// The cards of column number `n`.
pub open spec fn column_cards(c: WriteColumnView, n: nat) -> Seq<CardView> {
    let tform = tform_text(c.letter, c.repeat, c.var_kind);
    seq![
        text_card(numbered("TTYPE"@, n), c.name, "label for column"@),
        text_card(numbered("TFORM"@, n), tform, "data format of column"@),
    ] + opt_text_card(
        numbered("TDIM"@, n),
        c.tdim,
        "array dimensions (FORTRAN, fastest-first)"@,
    ) + (match c.tzero {
        Some(v) => seq![
            uint_card(
                numbered("TZERO"@, n),
                v,
                "offset for unsigned integer (unsigned-int trick)"@,
            ),
        ],
        None => Seq::empty(),
    }) + opt_text_card(numbered("TUNIT"@, n), c.tunit, "physical unit of column"@)
}

/// Appends the cards of column number `n`.
pub fn push_column_cards(cards: &mut Vec<Card>, c: &WriteColumn, n: u64)
    ensures
        card_views(final(cards)@) == card_views(old(cards)@) + column_cards(c@, n as nat),
{
    let ghost start = card_views(cards@);
    push_text(cards, numbered_key("TTYPE", n), c.name.clone(), "label for column");
    let tform: String = tform_text_of(c.letter, c.repeat, c.var_kind);
    push_text(cards, numbered_key("TFORM", n), tform, "data format of column");
    match &c.tdim {
        Some(s) => {
            push_text(
                cards,
                numbered_key("TDIM", n),
                s.clone(),
                "array dimensions (FORTRAN, fastest-first)",
            );
        },
        None => {},
    }
    match c.tzero {
        Some(v) => {
            push_uint(
                cards,
                numbered_key("TZERO", n),
                v,
                "offset for unsigned integer (unsigned-int trick)",
            );
        },
        None => {},
    }
    match &c.tunit {
        Some(s) => {
            push_text(cards, numbered_key("TUNIT", n), s.clone(), "physical unit of column");
        },
        None => {},
    }
    assert(card_views(cards@) =~= start + column_cards(c@, n as nat));
}

/// The cards of the columns, which count from 1.
pub open spec fn all_column_cards(cols: Seq<WriteColumnView>) -> Seq<CardView>
    decreases cols.len(),
{
    if cols.len() == 0 {
        Seq::empty()
    } else {
        all_column_cards(cols.drop_last()) + column_cards(cols.last(), cols.len())
    }
}

/// The bytes of a row of the columns.
pub open spec fn total_width(cols: Seq<WriteColumnView>) -> int
    decreases cols.len(),
{
    if cols.len() == 0 {
        0
    } else {
        total_width(cols.drop_last()) + cols.last().byte_width
    }
}

/// The cards of a new table without rows in its heap.
pub open spec fn table_cards(
    cols: Seq<WriteColumnView>,
    nrows: i64,
    extname: Option<Seq<char>>,
    extver: Option<i64>,
) -> Seq<CardView> {
    seq![
        text_card("XTENSION"@, "BINTABLE"@, "binary table extension"@),
        int_card("BITPIX"@, 8, "8-bit bytes"@),
        int_card("NAXIS"@, 2, "2-dimensional binary table"@),
        int_card("NAXIS1"@, total_width(cols) as i64, "width of table in bytes"@),
        int_card("NAXIS2"@, nrows, "number of rows in table"@),
        int_card("PCOUNT"@, 0, "size of special data area"@),
        int_card("GCOUNT"@, 1, "one data group (required keyword)"@),
        int_card("TFIELDS"@, cols.len() as i64, "number of columns"@),
    ] + opt_text_card("EXTNAME"@, extname, "name of this HDU"@) + (match extver {
        Some(v) => seq![int_card("EXTVER"@, v, "extension version"@)],
        None => Seq::empty(),
    }) + all_column_cards(cols) + seq![end_card()]
}

/// The bytes of a row, or `None` where a header cannot say them.
fn row_width_of(cols: &Vec<WriteColumn>) -> (r: Option<i64>)
    ensures
        match r {
            Some(w) => w == total_width(write_views(cols@)),
            None => total_width(write_views(cols@)) > i64::MAX,
        },
{
    let n: usize = cols.len();
    let ghost v = write_views(cols@);
    let mut w: i64 = 0;
    let mut i: usize = 0;
    assert(v.take(0) =~= Seq::empty());
    while i < n
        invariant
            i <= n == cols@.len(),
            v == write_views(cols@),
            w == total_width(v.take(i as int)),
            0 <= w,
        decreases n - i,
    {
        proof {
            assert(v.take(i + 1).drop_last() =~= v.take(i as int));
            lemma_width_grows(v, i + 1);
        }
        let b: usize = cols[i].byte_width;
        if b as u64 > (i64::MAX - w) as u64 {
            return None;
        }
        w = w + b as i64;
        i = i + 1;
    }
    assert(v.take(n as int) =~= v);
    Some(w)
}

proof fn lemma_width_grows(v: Seq<WriteColumnView>, k: int)
    requires
        0 <= k <= v.len(),
    ensures
        0 <= total_width(v.take(k)) <= total_width(v),
    decreases v.len(),
{
    if k < v.len() {
        assert(v.drop_last().take(k) =~= v.take(k));
        lemma_width_grows(v.drop_last(), k);
    } else {
        assert(v.take(k) =~= v);
        if v.len() > 0 {
            lemma_width_grows(v.drop_last(), k - 1);
        }
    }
}

/// Builds the header of a new table.
pub fn build_bintable_header_cards(
    cols: &Vec<WriteColumn>,
    row_width: i64,
    nrows: i64,
    extname: Option<&str>,
    extver: Option<i64>,
) -> (r: Vec<Card>)
    requires
        row_width == total_width(write_views(cols@)),
        cols@.len() <= i64::MAX,
    ensures
        card_views(r@) == table_cards(
            write_views(cols@),
            nrows,
            match extname {
                Some(s) => Some(s@),
                None => None,
            },
            extver,
        ),
{
    let n: usize = cols.len();
    let ghost v = write_views(cols@);
    let mut cards: Vec<Card> = Vec::new();
    assert(card_views(cards@) =~= Seq::empty());
    push_text(
        &mut cards,
        "XTENSION".to_owned(),
        "BINTABLE".to_owned(),
        "binary table extension",
    );
    push_int(&mut cards, "BITPIX".to_owned(), 8, "8-bit bytes");
    push_int(&mut cards, "NAXIS".to_owned(), 2, "2-dimensional binary table");
    push_int(&mut cards, "NAXIS1".to_owned(), row_width, "width of table in bytes");
    push_int(&mut cards, "NAXIS2".to_owned(), nrows, "number of rows in table");
    push_int(&mut cards, "PCOUNT".to_owned(), 0, "size of special data area");
    push_int(&mut cards, "GCOUNT".to_owned(), 1, "one data group (required keyword)");
    push_int(&mut cards, "TFIELDS".to_owned(), n as i64, "number of columns");
    match extname {
        Some(s) => {
            push_text(&mut cards, "EXTNAME".to_owned(), s.to_owned(), "name of this HDU");
        },
        None => {},
    }
    match extver {
        Some(ver) => {
            push_int(&mut cards, "EXTVER".to_owned(), ver, "extension version");
        },
        None => {},
    }
    let ghost head = card_views(cards@);
    let mut i: usize = 0;
    assert(v.take(0) =~= Seq::empty());
    assert(head =~= head + all_column_cards(v.take(0)));
    while i < n
        invariant
            i <= n == cols@.len(),
            n <= i64::MAX,
            v == write_views(cols@),
            card_views(cards@) == head + all_column_cards(v.take(i as int)),
        decreases n - i,
    {
        let ghost before = all_column_cards(v.take(i as int));
        proof {
            assert(v.take(i + 1).drop_last() =~= v.take(i as int));
            assert(v.take(i + 1).last() == cols@[i as int]@);
        }
        push_column_cards(&mut cards, &cols[i], i as u64 + 1);
        i = i + 1;
        assert(card_views(cards@) =~= head + all_column_cards(v.take(i as int)));
    }
    assert(v.take(n as int) =~= v);
    let ghost before = card_views(cards@);
    cards.push(Card { key: "END".to_owned(), value: CardValue::End, comment: String::new() });
    assert(card_views(cards@) =~= before.push(end_card()));
    assert(card_views(cards@) =~= table_cards(
        v,
        nrows,
        match extname {
            Some(s) => Some(s@),
            None => None,
        },
        extver,
    ));
    cards
}

/// Builds the header of a new table of the fields of an array; also the width
/// of its rows.
pub fn normalize_and_build_table_header(
    fields: &Option<Vec<Field>>,
    nrows: i64,
    extname: Option<&str>,
    extver: Option<i64>,
    inner: &Option<InnerTypes>,
    bits: &Option<BitColumns>,
    descriptor: Descriptor,
) -> (r: Result<(Vec<Card>, u64), CreateError>)
    requires
        inner matches Some(t) ==> t.names@.len() == t.codes@.len(),
    ensures
        match table_for(*fields, field_uppers(*fields), *inner, *bits, descriptor) {
            Err(e) => r == Err::<(Vec<Card>, u64), CreateError>(e),
            Ok(cols) => if total_width(cols) > i64::MAX || cols.len() > i64::MAX {
                r == Err::<(Vec<Card>, u64), CreateError>(CreateError::RowTooWide)
            } else {
                r matches Ok((cards, width)) && width == total_width(cols) && card_views(cards@)
                    == table_cards(
                    cols,
                    nrows,
                    match extname {
                        Some(s) => Some(s@),
                        None => None,
                    },
                    extver,
                )
            },
        },
{
    let cols: Vec<WriteColumn> = match dtype_to_write_columns(fields, inner, bits, descriptor) {
        Ok(c) => c,
        Err(e) => {
            return Err(e);
        },
    };
    let width: i64 = match row_width_of(&cols) {
        Some(w) => w,
        None => {
            return Err(CreateError::RowTooWide);
        },
    };
    if cols.len() as u64 > i64::MAX as u64 {
        return Err(CreateError::RowTooWide);
    }
    proof {
        lemma_width_grows(write_views(cols@), 0);
    }
    Ok((build_bintable_header_cards(&cols, width, nrows, extname, extver), width as u64))
}

// Reading back -------------------------------------------------------------

/// A text whose ends are no white space stays as it is.
pub proof fn lemma_trimmed(s: Seq<char>)
    requires
        s.len() > 0,
        !is_white(s[0]),
        !is_white(s.last()),
    ensures
        trimmed(s) == s,
{
}

/// Digits before a letter are all that stands before it.
pub proof fn lemma_before_letter(d: Seq<char>, rest: Seq<char>)
    requires
        all_digits(d),
        rest.len() > 0,
        is_letter(rest[0]),
    ensures
        before_letter(d + rest) == d.len(),
    decreases d.len(),
{
    if d.len() == 0 {
        assert(d + rest =~= rest);
    } else {
        let t = d.drop_first();
        assert forall|i: int| 0 <= i < t.len() implies is_digit(#[trigger] t[i]) by {
            assert(t[i] == d[i + 1]);
        }
        lemma_before_letter(t, rest);
        assert((d + rest).drop_first() =~= t + rest);
        assert((d + rest)[0] == d[0]);
        assert(is_digit(d[0]));
    }
}

/// The TFORM of a fixed-width column reads back as its repeat count and type.
pub proof fn law_tform_round_trip(letter: Letter, repeat: usize, column: u64)
    ensures
        tform_pieces(tform_text(letter, repeat, None), column) == Ok::<Tform, HeaderError>(
            Tform { repeat, letter: letter_sign(letter), inner: None },
        ),
{
    let d = decimal(repeat as nat);
    let l = letter_sign(letter);
    let s = tform_text(letter, repeat, None);
    lemma_decimal_value(repeat as nat);
    assert(is_digit(d[0]));
    assert(s[0] == d[0]);
    assert(s.last() == l);
    lemma_trimmed(s);
    assert(s =~= d + seq![l]);
    lemma_before_letter(d, seq![l]);
    assert(s.take(d.len() as int) =~= d);
    law_decimal_parses(repeat);
    assert(s.skip(d.len() as int + 1) =~= Seq::empty());
    assert(trimmed(Seq::<char>::empty()).len() == 0);
}

/// The TFORM of a column of descriptors reads back as its form and the element
/// type.
pub proof fn law_descriptor_tform_round_trip(letter: Letter, kind: Descriptor, column: u64)
    ensures
        tform_pieces(tform_text(letter, 1, Some(kind)), column) == Ok::<Tform, HeaderError>(
            Tform {
                repeat: 1,
                letter: descriptor_sign(kind),
                inner: Some(letter_sign(letter)),
            },
        ),
{
    let k = descriptor_sign(kind);
    let l = letter_sign(letter);
    let s = tform_text(letter, 1, Some(kind));
    lemma_trimmed(s);
    assert(s =~= seq!['1'] + seq![k, l]);
    lemma_before_letter(seq!['1'], seq![k, l]);
    assert(s.take(1) =~= decimal(1));
    law_decimal_parses(1);
    let t = s.skip(2);
    assert(t =~= seq![l]);
    lemma_trimmed(t);
    assert(t.drop_first() =~= Seq::empty());
    assert(trimmed(Seq::<char>::empty()).len() == 0);
}

/// Characters without a comma belong to the last part.
proof fn lemma_parts_extend(s: Seq<char>, t: Seq<char>)
    requires
        forall|i: int| 0 <= i < t.len() ==> t[i] != ',',
    ensures
        comma_parts(s + t) == comma_parts(s).drop_last().push(comma_parts(s).last() + t),
    decreases t.len(),
{
    lemma_comma_parts(s);
    let p = comma_parts(s);
    if t.len() == 0 {
        assert(s + t =~= s);
        assert(p.last() + t =~= p.last());
        assert(p.drop_last().push(p.last()) =~= p);
    } else {
        let u = t.drop_last();
        lemma_parts_extend(s, u);
        assert((s + t).drop_last() =~= s + u);
        assert((s + t).last() == t.last());
        let q = comma_parts(s + u);
        assert(q.drop_last() =~= p.drop_last());
        assert(q.last() == p.last() + u);
        assert((p.last() + u).push(t.last()) =~= p.last() + t);
    }
}

/// The parts of joined numbers are the numbers in decimal.
pub proof fn lemma_joined_parts(d: Seq<usize>)
    requires
        d.len() > 0,
    ensures
        comma_parts(joined(d)) == Seq::new(d.len(), |i: int| decimal(d[i] as nat)),
    decreases d.len(),
{
    let want = Seq::new(d.len(), |i: int| decimal(d[i] as nat));
    let last = decimal(d.last() as nat);
    lemma_decimal_value(d.last() as nat);
    assert forall|i: int| 0 <= i < last.len() implies last[i] != ',' by {
        assert(is_digit(last[i]));
    }
    if d.len() == 1 {
        let e = Seq::<char>::empty();
        lemma_parts_extend(e, last);
        assert(e + last =~= last);
        assert(joined(d) == last);
        assert(comma_parts(joined(d)) =~= want);
    } else {
        let c = d.drop_last();
        lemma_joined_parts(c);
        let s = joined(c).push(',');
        assert(s.drop_last() =~= joined(c));
        let p = comma_parts(joined(c));
        assert(comma_parts(s) =~= p.push(Seq::empty()));
        lemma_parts_extend(s, last);
        assert(p.push(Seq::empty()).drop_last() =~= p);
        assert(Seq::<char>::empty() + last =~= last);
        assert(comma_parts(joined(d)) =~= p.push(last));
        assert(comma_parts(joined(d)) =~= want);
    }
}

/// The numbers in decimal read back as the numbers.
proof fn lemma_dims_of_decimals(d: Seq<usize>, column: u64)
    requires
        forall|i: int| 0 <= i < d.len() ==> d[i] > 0,
    ensures
        dims_of(Seq::new(d.len(), |i: int| decimal(d[i] as nat)), column) == Ok::<
            Seq<usize>,
            HeaderError,
        >(d),
    decreases d.len(),
{
    let parts = Seq::new(d.len(), |i: int| decimal(d[i] as nat));
    if d.len() > 0 {
        let c = d.drop_last();
        lemma_dims_of_decimals(c, column);
        assert(parts.drop_last() =~= Seq::new(c.len(), |i: int| decimal(c[i] as nat)));
        let t = decimal(d.last() as nat);
        lemma_decimal_value(d.last() as nat);
        assert(is_digit(t[0]) && is_digit(t[t.len() - 1]));
        lemma_trimmed(t);
        law_decimal_parses(d.last());
        assert(parts.last() == t);
        assert(c.push(d.last()) =~= d);
    } else {
        assert(d =~= Seq::empty());
    }
}

/// The TDIM that is written for dimensions reads back as these dimensions.
pub proof fn law_tdim_round_trip(d: Seq<usize>, column: u64)
    requires
        d.len() > 0,
        forall|i: int| 0 <= i < d.len() ==> d[i] > 0,
    ensures
        tdim_dims(tdim_text(d), column) == Ok::<Seq<usize>, HeaderError>(d),
{
    let s = tdim_text(d);
    assert(s[0] == '(');
    assert(s.last() == ')');
    lemma_trimmed(s);
    assert(s.subrange(1, s.len() - 1) =~= joined(d));
    lemma_joined_parts(d);
    lemma_dims_of_decimals(d, column);
}

/// The keywords of a column, as its cards give them to a reader.
pub open spec fn keywords_of(c: WriteColumnView) -> KeywordsView {
    KeywordsView {
        ttype: Some(c.name),
        tform: Some(tform_text(c.letter, c.repeat, c.var_kind)),
        tdim: c.tdim,
        tscal: None,
        tzero: match c.tzero {
            Some(v) => Some(offset_bits(v)),
            None => None,
        },
        tnull: None,
        tunit: c.tunit,
    }
}

/// The bits of the 64-bit float that an offset of unsigned integers is.
pub open spec fn offset_bits(v: u64) -> u64 {
    if v == 0x8000 {
        TWO_15_BITS
    } else if v == 0x8000_0000 {
        TWO_31_BITS
    } else if v == 0x8000_0000_0000_0000 {
        TWO_63_BITS
    } else {
        0
    }
}

/// The type that an element of a kind and a size is read back into. Strings of
/// bytes come back as strings of characters.
pub open spec fn type_back(kind: char, size: usize) -> NumpyType {
    if kind == 'i' {
        if size == 2 {
            NumpyType::I2
        } else if size == 4 {
            NumpyType::I4
        } else {
            NumpyType::I8
        }
    } else if kind == 'u' {
        if size == 1 {
            NumpyType::U1
        } else if size == 2 {
            NumpyType::U2
        } else if size == 4 {
            NumpyType::U4
        } else {
            NumpyType::U8
        }
    } else if kind == 'f' {
        if size == 4 {
            NumpyType::F4
        } else {
            NumpyType::F8
        }
    } else if kind == 'c' {
        if size == 8 {
            NumpyType::C8
        } else {
            NumpyType::C16
        }
    } else if kind == 'b' {
        NumpyType::Bool
    } else if kind == 'S' {
        NumpyType::Text(size)
    } else {
        NumpyType::Text((size / 4) as usize)
    }
}

/// Whether dimensions are what a TDIM says, where there is one.
pub open spec fn dims_back(tdim: Option<Seq<char>>, dims: Option<Seq<usize>>) -> bool {
    match tdim {
        None => dims is None,
        Some(s) => dims is Some && forall|n: u64| #[trigger]
            tdim_dims(s, n) == Ok::<Seq<usize>, HeaderError>(dims->0),
    }
}

/// The offset of the values of a column, as the bits of a 64-bit float.
pub open spec fn offset_back(tzero: Option<u64>) -> u64 {
    match tzero {
        Some(v) => offset_bits(v),
        None => 0,
    }
}

/// Whether a column that was made of a field, and its cards, read back as that
/// field: the same name, layout, dimensions and unit, a scale of one and the
/// offset of its values, an array of the same type, and cells of the same shape.
/// One value in the shape of an array of one comes back without an axis.
pub open spec fn reads_as(f: Field, c: WriteColumnView, r: ColumnView) -> bool {
    &&& r.name == f.name@
    &&& r.letter == c.letter
    &&& r.repeat == c.repeat
    &&& r.byte_width == c.byte_width
    &&& r.var_kind == c.var_kind
    &&& dims_back(c.tdim, r.tdim)
    &&& r.tscal == ONE_BITS
    &&& r.tzero == offset_back(c.tzero)
    &&& r.tnull is None
    &&& r.tunit == opt_text(f.unit)
    &&& column_ok(r)
    &&& f.kind != 'O' ==> {
        &&& field_type(r, true) == Some(type_back(f.kind, f.itemsize))
        &&& cell_shape(r) == if f.shape@ == seq![1usize] && !(c.letter is A) {
            Seq::empty()
        } else {
            f.shape@
        }
    }
    &&& f.kind == 'O' ==> field_type(r, true) == Some(NumpyType::Object)
}

/// A new column of fixed-width values reads back as what it was made of: its
/// name and unit, an array of the same type, and cells of the same shape.
pub proof fn law_fixed_column_reads_back(
    name: Seq<char>,
    kind: char,
    itemsize: usize,
    shape: Seq<usize>,
    unit: Option<Seq<char>>,
    bits: bool,
    n: u64,
    offset: usize,
)
    requires
        fixed_column(name, kind, itemsize, shape, unit, bits) is Ok,
        forall|i: int| 0 <= i < shape.len() ==> shape[i] > 0,
    ensures
        ({
            let c = fixed_column(name, kind, itemsize, shape, unit, bits)->Ok_0;
            let r = column_from(keywords_of(c), n, offset);
            &&& r is Ok
            &&& r->Ok_0.byte_offset == offset
            &&& r->Ok_0.name == name
            &&& r->Ok_0.letter == c.letter
            &&& r->Ok_0.repeat == c.repeat
            &&& r->Ok_0.byte_width == c.byte_width
            &&& r->Ok_0.var_kind is None
            &&& dims_back(c.tdim, r->Ok_0.tdim)
            &&& r->Ok_0.tscal == ONE_BITS
            &&& r->Ok_0.tzero == offset_back(c.tzero)
            &&& r->Ok_0.tnull is None
            &&& r->Ok_0.tunit == unit
            &&& column_ok(r->Ok_0)
            &&& field_type(r->Ok_0, true) == Some(type_back(kind, itemsize))
            &&& cell_shape(r->Ok_0) == if shape == seq![1usize] && !(c.letter is A) {
                Seq::empty()
            } else {
                shape
            }
        }),
{
    let c = fixed_column(name, kind, itemsize, shape, unit, bits)->Ok_0;
    let k = keywords_of(c);
    law_tform_round_trip(c.letter, c.repeat, n);
    let class = scalar_class(kind, itemsize, bits)->Ok_0;
    let count = element_count(shape)->0;
    lemma_shape_product(shape);
    lemma_product_reverse(shape);
    assert(count == product(shape));
    assert(cell_bytes(c.letter, c.repeat as nat) == c.byte_width) by {
        let x = class.elem_bytes as int;
        let y = count as int;
        assert(x * y == y * x) by (nonlinear_arith);
        assert(letter_for(letter_sign(c.letter)) == Some(c.letter));
        assert(c.repeat * 1 == c.repeat);
    }
    let dims = field_tdim(class.chars, shape);
    if dims is Some {
        let d = dims->0;
        match class.chars {
            Some(w) => {
                lemma_product_add(seq![w], shape.reverse());
                lemma_product_one(w);
                assert(product(d) == w * product(shape));
            },
            None => {},
        }
        assert forall|i: int| 0 <= i < d.len() implies d[i] > 0 by {
            match class.chars {
                Some(w) => {
                    if i > 0 {
                        assert(d[i] == shape.reverse()[i - 1]);
                    }
                },
                None => {},
            }
        }
        assert forall|m: u64| #[trigger] tdim_dims(tdim_text(d), m) == Ok::<
            Seq<usize>,
            HeaderError,
        >(d) by {
            law_tdim_round_trip(d, m);
        }
        assert(product(d) == c.repeat);
    }
    let col = column_from(k, n, offset)->Ok_0;
    crate::keywords::lemma_column_ok(k, n, offset);
    assert(shape.reverse().reverse() =~= shape);
    match class.chars {
        Some(w) => {
            assert((seq![w] + shape.reverse()).drop_first() =~= shape.reverse());
            if shape.len() == 0 {
                assert(shape =~= Seq::empty());
                assert(product(shape) == 1);
                assert(w * 1 == w);
            }
        },
        None => {
            if shape.len() == 0 {
                assert(shape =~= Seq::empty());
            } else if shape.len() == 1 {
                assert(shape =~= seq![shape[0]]);
                lemma_product_one(shape[0]);
            }
        },
    }
}

/// A column that was made of a field reads back as that field.
pub proof fn law_created_column_reads_back(
    f: Field,
    upper: Seq<char>,
    inner: Option<InnerTypes>,
    bits: Option<BitColumns>,
    descriptor: Descriptor,
    n: u64,
    offset: usize,
)
    requires
        column_for(f, upper, inner, bits, descriptor) is Ok,
        forall|i: int| 0 <= i < f.shape@.len() ==> f.shape@[i] > 0,
    ensures
        ({
            let c = column_for(f, upper, inner, bits, descriptor)->Ok_0;
            let r = column_from(keywords_of(c), n, offset);
            &&& r is Ok
            &&& r->Ok_0.byte_offset == offset
            &&& reads_as(f, c, r->Ok_0)
        }),
{
    let c = column_for(f, upper, inner, bits, descriptor)->Ok_0;
    if f.kind == 'O' {
        law_descriptor_tform_round_trip(c.letter, descriptor, n);
    } else {
        law_fixed_column_reads_back(
            f.name@,
            f.kind,
            f.itemsize,
            f.shape@,
            opt_text(f.unit),
            wants_bits(f, upper, bits),
            n,
            offset,
        );
    }
}

} // verus!
