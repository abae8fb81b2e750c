//! What the cards of a header say of its columns, before and after a column has
//! been put in or taken out.

use vstd::prelude::*;

use crate::cards::{
    Stem, about, all_renumbered, byte_len, cards_with_column, cards_without_column, column_card,
    cut, ended_with, filled, first_keyword, keyword, last_end, lemma_ascii_len, lemma_byte_len_add,
    lemma_column_number, lemma_cut, lemma_cut_at, lemma_numbered, lemma_trim_spaces, rebuilt,
    renumbered, replaced, stem_text, with_numbers, without_column, without_theap,
};
use crate::text::{decimal, is_digit, is_white, lemma_decimal_value};

verus! {

// Keywords -----------------------------------------------------------------

/// Whether a text is the stem of the keywords of columns.
pub open spec fn column_stem(t: Seq<char>) -> bool {
    ||| t == seq!['T', 'T', 'Y', 'P', 'E']
    ||| t == seq!['T', 'F', 'O', 'R', 'M']
    ||| t == seq!['T', 'D', 'I', 'M']
    ||| t == seq!['T', 'U', 'N', 'I', 'T']
    ||| t == seq!['T', 'Z', 'E', 'R', 'O']
    ||| t == seq!['T', 'S', 'C', 'A', 'L']
    ||| t == seq!['T', 'N', 'U', 'L', 'L']
    ||| t == seq!['T', 'D', 'I', 'S', 'P']
    ||| t == seq!['T', 'B', 'C', 'O', 'L']
}

/// The keyword of the column with a number: a stem and the number in decimal.
pub open spec fn column_key(stem: Seq<char>, n: int) -> Seq<char> {
    stem + decimal(n as nat)
}

/// The eight characters of a keyword in a card: what it is short of them is
/// spaces.
pub open spec fn key_field(key: Seq<char>) -> Seq<char> {
    Seq::new(
        8,
        |i: int|
            if i < key.len() {
                key[i]
            } else {
                ' '
            },
    )
}

/// Whether a card has a keyword in its first eight characters.
pub open spec fn labelled(card: Seq<char>, key: Seq<char>) -> bool {
    card.len() >= 8 && key.len() <= 8 && card.take(8) == key_field(key)
}

/// What cards say under a keyword: what stands behind it in the first card that
/// has it.
pub open spec fn said(cards: Seq<Seq<char>>, key: Seq<char>) -> Option<Seq<char>>
    decreases cards.len(),
{
    if cards.len() == 0 {
        None
    } else {
        match said(cards.drop_last(), key) {
            Some(r) => Some(r),
            None => if labelled(cards.last(), key) {
                Some(cards.last().skip(8))
            } else {
                None
            },
        }
    }
}

/// Whether a text can be a keyword: it is ASCII, and does not end in white space.
pub open spec fn proper_key(key: Seq<char>) -> bool {
    &&& 0 < key.len() <= 8
    &&& forall|i: int| 0 <= i < key.len() ==> #[trigger] key[i] <= '\u{7f}'
    &&& !is_white(key.last())
}

pub proof fn lemma_label_keyword(card: Seq<char>, key: Seq<char>)
    requires
        labelled(card, key),
        proper_key(key),
    ensures
        keyword(card) == Some(key),
        cut(card, 8) == Some(8int),
{
    let f = key_field(key);
    assert forall|i: int| 0 <= i < f.len() implies #[trigger] f[i] <= '\u{7f}' by {
        if i < key.len() {
            assert(f[i] == key[i]);
        }
    }
    lemma_ascii_len(f);
    lemma_cut(card, 8, 8);
    lemma_trim_spaces(key, (8 - key.len()) as nat);
    assert(f =~= key + Seq::new((8 - key.len()) as nat, |i: int| ' '));
}

proof fn lemma_stem_of(stem: Seq<char>) -> (s: Stem)
    requires
        column_stem(stem),
    ensures
        stem_text(s) == stem,
{
    lemma_stem_texts();
    if stem == stem_text(Stem::Ttype) {
        Stem::Ttype
    } else if stem == stem_text(Stem::Tform) {
        Stem::Tform
    } else if stem == stem_text(Stem::Tdim) {
        Stem::Tdim
    } else if stem == stem_text(Stem::Tunit) {
        Stem::Tunit
    } else if stem == stem_text(Stem::Tzero) {
        Stem::Tzero
    } else if stem == stem_text(Stem::Tscal) {
        Stem::Tscal
    } else if stem == stem_text(Stem::Tnull) {
        Stem::Tnull
    } else if stem == stem_text(Stem::Tdisp) {
        Stem::Tdisp
    } else {
        Stem::Tbcol
    }
}

proof fn lemma_stem_texts()
    ensures
        stem_text(Stem::Ttype) == seq!['T', 'T', 'Y', 'P', 'E'],
        stem_text(Stem::Tform) == seq!['T', 'F', 'O', 'R', 'M'],
        stem_text(Stem::Tdim) == seq!['T', 'D', 'I', 'M'],
        stem_text(Stem::Tunit) == seq!['T', 'U', 'N', 'I', 'T'],
        stem_text(Stem::Tzero) == seq!['T', 'Z', 'E', 'R', 'O'],
        stem_text(Stem::Tscal) == seq!['T', 'S', 'C', 'A', 'L'],
        stem_text(Stem::Tnull) == seq!['T', 'N', 'U', 'L', 'L'],
        stem_text(Stem::Tdisp) == seq!['T', 'D', 'I', 'S', 'P'],
        stem_text(Stem::Tbcol) == seq!['T', 'B', 'C', 'O', 'L'],
        forall|s: Stem| column_stem(#[trigger] stem_text(s)),
{
    reveal_strlit("TTYPE");
    reveal_strlit("TFORM");
    reveal_strlit("TDIM");
    reveal_strlit("TUNIT");
    reveal_strlit("TZERO");
    reveal_strlit("TSCAL");
    reveal_strlit("TNULL");
    reveal_strlit("TDISP");
    reveal_strlit("TBCOL");
    assert("TTYPE"@ =~= seq!['T', 'T', 'Y', 'P', 'E']);
    assert("TFORM"@ =~= seq!['T', 'F', 'O', 'R', 'M']);
    assert("TDIM"@ =~= seq!['T', 'D', 'I', 'M']);
    assert("TUNIT"@ =~= seq!['T', 'U', 'N', 'I', 'T']);
    assert("TZERO"@ =~= seq!['T', 'Z', 'E', 'R', 'O']);
    assert("TSCAL"@ =~= seq!['T', 'S', 'C', 'A', 'L']);
    assert("TNULL"@ =~= seq!['T', 'N', 'U', 'L', 'L']);
    assert("TDISP"@ =~= seq!['T', 'D', 'I', 'S', 'P']);
    assert("TBCOL"@ =~= seq!['T', 'B', 'C', 'O', 'L']);
}

pub proof fn lemma_column_key(stem: Seq<char>, n: int)
    requires
        column_stem(stem),
        1 <= n <= 999,
    ensures
        proper_key(column_key(stem, n)),
        decimal(n as nat).len() <= 3,
{
    let d = decimal(n as nat);
    let key = column_key(stem, n);
    reveal_with_fuel(decimal, 4);
    lemma_decimal_value(n as nat);
    assert(is_digit(d[d.len() - 1]));
    assert(key.last() == d[d.len() - 1]);
    assert forall|i: int| 0 <= i < key.len() implies #[trigger] key[i] <= '\u{7f}' by {
        if i >= stem.len() {
            assert(key[i] == d[i - stem.len()]);
            assert(is_digit(d[i - stem.len()]));
        } else {
            assert(key[i] == stem[i]);
        }
    }
}

/// A card whose keyword is one of the stems of columns and a number is about the
/// column with that number.
pub proof fn law_column_card(card: Seq<char>, stem: Seq<char>, n: int)
    requires
        column_stem(stem),
        1 <= n <= 999,
        labelled(card, column_key(stem, n)),
    ensures
        column_card(card) matches Some((s, m)) && m == n && stem_text(s) == stem,
{
    let s = lemma_stem_of(stem);
    lemma_column_key(stem, n);
    lemma_label_keyword(card, column_key(stem, n));
    lemma_numbered(s, n as usize);
}

// One card -----------------------------------------------------------------

/// Whether a card has a keyword as writers make it: the number of a column stands
/// in it without zeros before it, and leaves room for the next.
pub open spec fn tidy(card: Seq<char>) -> bool {
    column_card(card) matches Some((s, n)) ==> n <= 998 && labelled(
        card,
        column_key(stem_text(s), n as int),
    )
}

/// Whether a card is about no column, or is labelled as about the one that it is
/// about.
spec fn true_label(card: Seq<char>) -> bool {
    column_card(card) matches Some((s, n)) ==> 1 <= n <= 999 && labelled(
        card,
        column_key(stem_text(s), n as int),
    )
}

proof fn lemma_labels(card: Seq<char>, stem: Seq<char>, n: int)
    requires
        true_label(card),
        column_stem(stem),
        1 <= n <= 999,
    ensures
        labelled(card, column_key(stem, n)) <==> (column_card(card) matches Some((s, m)) && m == n
            && stem_text(s) == stem),
{
    if labelled(card, column_key(stem, n)) {
        law_column_card(card, stem, n);
    }
}

proof fn lemma_rebuilt(card: Seq<char>, s: Stem, n: usize, m: int)
    requires
        column_card(card) == Some((s, n)),
        labelled(card, column_key(stem_text(s), n as int)),
        1 <= n <= 999,
        1 <= m <= 999,
    ensures
        ({
            let c = rebuilt(card, s, m as nat);
            &&& labelled(c, column_key(stem_text(s), m))
            &&& column_card(c) == Some((s, m as usize))
            &&& c.skip(8) == card.skip(8)
        }),
{
    let stem = stem_text(s);
    lemma_stem_texts();
    assert(column_stem(stem));
    lemma_column_key(stem, n as int);
    lemma_column_key(stem, m);
    lemma_label_keyword(card, column_key(stem, n as int));
    lemma_numbered(s, m as usize);
    let key = column_key(stem, m);
    let c = rebuilt(card, s, m as nat);
    assert(filled(key) =~= key_field(key));
    let old = card.take(8);
    lemma_byte_len_add(old, card.skip(8));
    assert(card =~= old + card.skip(8));
    lemma_cut_at(card, 8);
    if byte_len(card) <= 8 {
        assert(byte_len(card.skip(8)) == 0);
        assert(card.skip(8).len() == 0);
        assert(c.skip(8) =~= card.skip(8));
    } else {
        assert(c =~= filled(key) + card.skip(8));
        assert(c.skip(8) =~= card.skip(8));
    }
    assert(c.take(8) =~= key_field(key));
    law_column_card(c, stem, m);
    let (t, q) = column_card(c)->0;
    lemma_stem_once(s, t);
}

proof fn lemma_stem_once(s: Stem, t: Stem)
    requires
        stem_text(s) == stem_text(t),
    ensures
        s == t,
{
    lemma_stem_texts();
    let a = stem_text(s);
    let b = stem_text(t);
    assert(a[1] == b[1] && a[3] == b[3]);
}

/// A keyword that is none of columns.
pub open spec fn no_column_key(key: Seq<char>) -> bool {
    &&& proper_key(key)
    &&& forall|stem: Seq<char>, n: int|
        column_stem(stem) && 1 <= n <= 999 ==> key != #[trigger] column_key(stem, n)
}

proof fn lemma_one_label(card: Seq<char>, a: Seq<char>, b: Seq<char>)
    requires
        labelled(card, a),
        labelled(card, b),
        proper_key(a),
        proper_key(b),
    ensures
        a == b,
{
    lemma_label_keyword(card, a);
    lemma_label_keyword(card, b);
}

proof fn lemma_renumbered(card: Seq<char>, pivot: usize, up: bool)
    requires
        tidy(card),
    ensures
        ({
            let c = renumbered(card, pivot, up);
            &&& true_label(card)
            &&& true_label(c)
            &&& c.skip(8) == card.skip(8)
            &&& match column_card(card) {
                None => c == card,
                Some((s, n)) => column_card(c) == Some(
                    (
                        s,
                        (if up && n >= pivot + 1 {
                            n + 1
                        } else if !up && n > pivot + 1 {
                            n - 1
                        } else {
                            n as int
                        }) as usize,
                    ),
                ),
            }
        }),
{
    lemma_column_number(card);
    match column_card(card) {
        None => {},
        Some((s, n)) => {
            if up && n >= pivot + 1 {
                lemma_rebuilt(card, s, n, n + 1);
            } else if !up && n > pivot + 1 {
                lemma_rebuilt(card, s, n, n - 1);
            }
        },
    }
}

proof fn lemma_kept_label(card: Seq<char>, pivot: usize, up: bool, key: Seq<char>)
    requires
        tidy(card),
        no_column_key(key),
    ensures
        labelled(renumbered(card, pivot, up), key) <==> labelled(card, key),
{
    lemma_renumbered(card, pivot, up);
    lemma_stem_texts();
    let c = renumbered(card, pivot, up);
    match column_card(card) {
        None => {},
        Some((s, n)) => {
            let (u, q) = column_card(c)->0;
            let m = q as int;
            let stem = stem_text(s);
            assert(column_stem(stem));
            lemma_column_key(stem, n as int);
            lemma_column_key(stem, m);
            assert(key != column_key(stem, n as int));
            assert(key != column_key(stem, m));
            if labelled(card, key) {
                lemma_one_label(card, key, column_key(stem, n as int));
            }
            if labelled(c, key) {
                lemma_one_label(c, key, column_key(stem, m));
            }
        },
    }
}

// All cards ----------------------------------------------------------------

proof fn lemma_said_join(a: Seq<Seq<char>>, b: Seq<Seq<char>>, key: Seq<char>)
    ensures
        said(a + b, key) == match said(a, key) {
            Some(r) => Some(r),
            None => said(b, key),
        },
    decreases b.len(),
{
    if b.len() == 0 {
        assert(a + b =~= a);
    } else {
        assert((a + b).drop_last() =~= a + b.drop_last());
        lemma_said_join(a, b.drop_last(), key);
    }
}

/// Cards of which those of two lists are labelled in the same way say the same.
proof fn lemma_said_same(
    a: Seq<Seq<char>>,
    b: Seq<Seq<char>>,
    k1: Seq<char>,
    k2: Seq<char>,
)
    requires
        a.len() == b.len(),
        forall|i: int|
            0 <= i < a.len() ==> labelled(#[trigger] a[i], k1) == labelled(b[i], k2) && (labelled(
                a[i],
                k1,
            ) ==> a[i].skip(8) == b[i].skip(8)),
    ensures
        said(a, k1) == said(b, k2),
    decreases a.len(),
{
    if a.len() > 0 {
        assert forall|i: int| 0 <= i < a.drop_last().len() implies labelled(
            #[trigger] a.drop_last()[i],
            k1,
        ) == labelled(b.drop_last()[i], k2) && (labelled(a.drop_last()[i], k1)
            ==> a.drop_last()[i].skip(8) == b.drop_last()[i].skip(8)) by {
            assert(a[i] == a.drop_last()[i]);
        }
        lemma_said_same(a.drop_last(), b.drop_last(), k1, k2);
        assert(labelled(a[a.len() - 1], k1) == labelled(b[a.len() - 1], k2));
    }
}

proof fn lemma_said_none(a: Seq<Seq<char>>, key: Seq<char>)
    requires
        forall|i: int| 0 <= i < a.len() ==> !labelled(#[trigger] a[i], key),
    ensures
        said(a, key) is None,
    decreases a.len(),
{
    if a.len() > 0 {
        assert forall|i: int| 0 <= i < a.drop_last().len() implies !labelled(
            #[trigger] a.drop_last()[i],
            key,
        ) by {
            assert(a[i] == a.drop_last()[i]);
        }
        lemma_said_none(a.drop_last(), key);
        assert(!labelled(a[a.len() - 1], key));
    }
}

proof fn lemma_said_at(a: Seq<Seq<char>>, key: Seq<char>, i: int)
    requires
        0 <= i < a.len(),
        labelled(a[i], key),
        forall|j: int| 0 <= j < i ==> !labelled(#[trigger] a[j], key),
    ensures
        said(a, key) == Some(a[i].skip(8)),
{
    let p = a.take(i);
    let q = a.skip(i);
    assert(a =~= p + q);
    lemma_said_join(p, q, key);
    assert forall|j: int| 0 <= j < p.len() implies !labelled(#[trigger] p[j], key) by {
        assert(p[j] == a[j]);
    }
    lemma_said_none(p, key);
    let f = q.take(1);
    assert(q =~= f + q.skip(1));
    lemma_said_join(f, q.skip(1), key);
    assert(f[0] == a[i]);
    assert(f.drop_last() =~= Seq::empty());
    reveal_with_fuel(said, 2);
    assert(f.last() == a[i]);
}

/// A keyword of the whole table is none of columns.
proof fn lemma_table_keys()
    ensures
        no_column_key("TFIELDS"@),
        no_column_key("NAXIS1"@),
        no_column_key("PCOUNT"@),
        no_column_key("THEAP"@),
        "TFIELDS"@ == seq!['T', 'F', 'I', 'E', 'L', 'D', 'S'],
        "NAXIS1"@ == seq!['N', 'A', 'X', 'I', 'S', '1'],
        "PCOUNT"@ == seq!['P', 'C', 'O', 'U', 'N', 'T'],
        "THEAP"@ == seq!['T', 'H', 'E', 'A', 'P'],
        "TFIELDS"@ != "NAXIS1"@,
        "TFIELDS"@ != "PCOUNT"@,
        "TFIELDS"@ != "THEAP"@,
        "NAXIS1"@ != "PCOUNT"@,
        "NAXIS1"@ != "THEAP"@,
        "PCOUNT"@ != "THEAP"@,
{
    reveal_strlit("TFIELDS");
    reveal_strlit("NAXIS1");
    reveal_strlit("PCOUNT");
    reveal_strlit("THEAP");
    assert("TFIELDS"@ =~= seq!['T', 'F', 'I', 'E', 'L', 'D', 'S']);
    assert("NAXIS1"@ =~= seq!['N', 'A', 'X', 'I', 'S', '1']);
    assert("PCOUNT"@ =~= seq!['P', 'C', 'O', 'U', 'N', 'T']);
    assert("THEAP"@ =~= seq!['T', 'H', 'E', 'A', 'P']);
    assert("TFIELDS"@[2] == 'I' && "NAXIS1"@[0] == 'N' && "PCOUNT"@[0] == 'P' && "THEAP"@[1]
        == 'H');
    assert forall|stem: Seq<char>, n: int|
        column_stem(stem) && 1 <= n <= 999 implies "TFIELDS"@ != #[trigger] column_key(stem, n)
        && "NAXIS1"@ != column_key(stem, n) && "PCOUNT"@ != column_key(stem, n) && "THEAP"@
        != column_key(stem, n) by {
        let key = column_key(stem, n);
        assert(key[0] == stem[0] && key[1] == stem[1] && key[2] == stem[2]);
    }
}

/// The first card with a keyword has it, and none before it has.
pub proof fn lemma_first_keyword_place(cards: Seq<Seq<char>>, key: Seq<char>)
    ensures
        first_keyword(cards, key) matches Some(i) ==> 0 <= i < cards.len() && keyword(cards[i])
            == Some(key) && forall|j: int|
            0 <= j < i ==> keyword(#[trigger] cards[j]) != Some(key),
        first_keyword(cards, key) is None ==> forall|j: int|
            0 <= j < cards.len() ==> keyword(#[trigger] cards[j]) != Some(key),
    decreases cards.len(),
{
    if cards.len() > 0 {
        let t = cards.drop_last();
        lemma_first_keyword_place(t, key);
        assert(forall|j: int| 0 <= j < t.len() ==> cards[j] == t[j]);
    }
}

proof fn lemma_replaced(
    cards: Seq<Seq<char>>,
    old: Seq<char>,
    card: Seq<char>,
    key: Seq<char>,
)
    requires
        replaced(cards, old, card) is Ok,
        proper_key(old),
        proper_key(key),
        labelled(card, old),
    ensures
        said(replaced(cards, old, card)->Ok_0, key) == if key == old {
            Some(card.skip(8))
        } else {
            said(cards, key)
        },
{
    lemma_first_keyword_place(cards, old);
    let i = first_keyword(cards, old)->0;
    let c = cards.update(i, card);
    if key == old {
        assert forall|j: int| 0 <= j < i implies !labelled(#[trigger] c[j], key) by {
            assert(c[j] == cards[j]);
            if labelled(cards[j], key) {
                lemma_label_keyword(cards[j], key);
            }
        }
        assert(c[i] == card);
        lemma_said_at(c, key, i);
    } else {
        assert forall|j: int| 0 <= j < c.len() implies labelled(#[trigger] c[j], key) == labelled(
            cards[j],
            key,
        ) && (labelled(c[j], key) ==> c[j].skip(8) == cards[j].skip(8)) by {
            if j == i {
                if labelled(card, key) {
                    lemma_one_label(card, key, old);
                }
                if labelled(cards[j], key) {
                    lemma_label_keyword(cards[j], key);
                }
            }
        }
        lemma_said_same(c, cards, key, key);
    }
}

proof fn lemma_said_without_theap(cards: Seq<Seq<char>>, key: Seq<char>)
    requires
        proper_key(key),
    ensures
        said(without_theap(cards), key) == if key == "THEAP"@ {
            None
        } else {
            said(cards, key)
        },
    decreases cards.len(),
{
    if cards.len() > 0 {
        let p = cards.drop_last();
        lemma_said_without_theap(p, key);
        let t = without_theap(p);
        let c = cards.last();
        if labelled(c, key) {
            lemma_label_keyword(c, key);
        }
        assert(t.push(c).drop_last() =~= t);
    }
}

/// What cards say with other numbers of the table.
proof fn lemma_with_numbers(
    cards: Seq<Seq<char>>,
    tfields: Seq<char>,
    naxis1: Seq<char>,
    pcount: Option<Seq<char>>,
    key: Seq<char>,
)
    requires
        with_numbers(cards, tfields, naxis1, pcount) is Ok,
        labelled(tfields, "TFIELDS"@),
        labelled(naxis1, "NAXIS1"@),
        pcount matches Some(p) ==> labelled(p, "PCOUNT"@),
        proper_key(key),
    ensures
        said(with_numbers(cards, tfields, naxis1, pcount)->Ok_0, key) == if key == "TFIELDS"@ {
            Some(tfields.skip(8))
        } else if key == "NAXIS1"@ {
            Some(naxis1.skip(8))
        } else if key == "PCOUNT"@ && pcount is Some {
            Some(pcount->0.skip(8))
        } else if key == "THEAP"@ {
            None
        } else {
            said(cards, key)
        },
{
    lemma_table_keys();
    lemma_replaced(cards, "TFIELDS"@, tfields, key);
    let c = replaced(cards, "TFIELDS"@, tfields)->Ok_0;
    lemma_replaced(c, "NAXIS1"@, naxis1, key);
    let d = replaced(c, "NAXIS1"@, naxis1)->Ok_0;
    match pcount {
        None => {
            lemma_said_without_theap(d, key);
        },
        Some(p) => {
            lemma_replaced(d, "PCOUNT"@, p, key);
            lemma_said_without_theap(replaced(d, "PCOUNT"@, p)->Ok_0, key);
        },
    }
}

proof fn lemma_said_renumbered(
    cards: Seq<Seq<char>>,
    pivot: usize,
    up: bool,
    stem: Seq<char>,
    n: int,
    m: int,
)
    requires
        forall|k: int| 0 <= k < cards.len() ==> tidy(#[trigger] cards[k]),
        column_stem(stem),
        1 <= n <= 999,
        1 <= m <= 999,
        up ==> m == if n >= pivot + 1 {
            n + 1
        } else {
            n
        },
        !up ==> m == (if n > pivot + 1 {
            n - 1
        } else {
            n
        }) && n != pivot + 1 && forall|k: int|
            0 <= k < cards.len() ==> !about(#[trigger] cards[k], pivot),
    ensures
        said(all_renumbered(cards, pivot, up), column_key(stem, m)) == said(
            cards,
            column_key(stem, n),
        ),
{
    let a = all_renumbered(cards, pivot, up);
    assert forall|k: int| 0 <= k < a.len() implies labelled(#[trigger] a[k], column_key(stem, m))
        == labelled(cards[k], column_key(stem, n)) && (labelled(a[k], column_key(stem, m))
        ==> a[k].skip(8) == cards[k].skip(8)) by {
        let c = cards[k];
        assert(tidy(c));
        if !up {
            assert(!about(c, pivot));
        }
        lemma_renumbered(c, pivot, up);
        lemma_column_number(c);
        lemma_labels(c, stem, n);
        lemma_labels(a[k], stem, m);
    }
    lemma_said_same(a, cards, column_key(stem, m), column_key(stem, n));
}

proof fn lemma_said_kept(cards: Seq<Seq<char>>, pivot: usize, up: bool, key: Seq<char>)
    requires
        forall|k: int| 0 <= k < cards.len() ==> tidy(#[trigger] cards[k]),
        no_column_key(key),
    ensures
        said(all_renumbered(cards, pivot, up), key) == said(cards, key),
{
    let a = all_renumbered(cards, pivot, up);
    assert forall|k: int| 0 <= k < a.len() implies labelled(#[trigger] a[k], key) == labelled(
        cards[k],
        key,
    ) && (labelled(a[k], key) ==> a[k].skip(8) == cards[k].skip(8)) by {
        assert(tidy(cards[k]));
        lemma_kept_label(cards[k], pivot, up, key);
        lemma_renumbered(cards[k], pivot, up);
    }
    lemma_said_same(a, cards, key, key);
}

/// Whether cards are about column number `n` and nothing else.
pub open spec fn all_about(cards: Seq<Seq<char>>, n: int) -> bool {
    forall|k: int|
        0 <= k < cards.len() ==> exists|stem: Seq<char>|
            column_stem(stem) && labelled(#[trigger] cards[k], #[trigger] column_key(stem, n))
}

proof fn lemma_said_new(new: Seq<Seq<char>>, n: int, key: Seq<char>)
    requires
        all_about(new, n),
        1 <= n <= 999,
        proper_key(key),
        forall|stem: Seq<char>| column_stem(stem) ==> key != #[trigger] column_key(stem, n),
    ensures
        said(new, key) is None,
{
    assert forall|k: int| 0 <= k < new.len() implies !labelled(#[trigger] new[k], key) by {
        let stem = choose|stem: Seq<char>|
            column_stem(stem) && labelled(new[k], #[trigger] column_key(stem, n));
        lemma_column_key(stem, n);
        if labelled(new[k], key) {
            lemma_one_label(new[k], key, column_key(stem, n));
        }
    }
    lemma_said_none(new, key);
}

proof fn lemma_other_number(stem: Seq<char>, n: int, m: int)
    requires
        column_stem(stem),
        1 <= n <= 999,
        1 <= m <= 999,
        n != m,
    ensures
        forall|t: Seq<char>| column_stem(t) ==> column_key(stem, n) != #[trigger] column_key(t, m),
{
    assert forall|t: Seq<char>| column_stem(t) implies column_key(stem, n)
        != #[trigger] column_key(t, m) by {
        if column_key(stem, n) == column_key(t, m) {
            let key = column_key(stem, n);
            lemma_column_key(stem, n);
            let card = key_field(key);
            assert(card.take(8) =~= card);
            law_column_card(card, stem, n);
            law_column_card(card, t, m);
        }
    }
}

/// Putting a column in moves what is said of the columns behind it, under every
/// keyword of columns, to the next number. What is said of the columns before it
/// stays, and under its own number stands what its cards say, and nothing else.
pub proof fn law_insert_moves_keywords(
    cards: Seq<Seq<char>>,
    at: usize,
    new: Seq<Seq<char>>,
    tfields: Seq<char>,
    naxis1: Seq<char>,
    pcount: Option<Seq<char>>,
    stem: Seq<char>,
    n: int,
)
    requires
        forall|k: int| 0 <= k < cards.len() ==> tidy(#[trigger] cards[k]),
        at < 998,
        all_about(new, at + 1),
        labelled(tfields, "TFIELDS"@),
        labelled(naxis1, "NAXIS1"@),
        pcount matches Some(p) ==> labelled(p, "PCOUNT"@),
        cards_with_column(cards, at, new, tfields, naxis1, pcount) is Ok,
        column_stem(stem),
        1 <= n <= 998,
    ensures
        ({
            let after = cards_with_column(cards, at, new, tfields, naxis1, pcount)->Ok_0;
            &&& n <= at ==> said(after, column_key(stem, n)) == said(cards, column_key(stem, n))
            &&& n > at ==> said(after, column_key(stem, n + 1)) == said(
                cards,
                column_key(stem, n),
            )
            &&& said(after, column_key(stem, at + 1)) == said(new, column_key(stem, at + 1))
        }),
{
    let up = all_renumbered(cards, at, true);
    let mid = ended_with(up, new)->Ok_0;
    let m = if n > at {
        n + 1
    } else {
        n
    };
    lemma_column_key(stem, n);
    lemma_column_key(stem, m);
    lemma_column_key(stem, at + 1);
    lemma_table_keys();
    let i = last_end(up)->0;
    lemma_last_end(up);
    let a = up.take(i);
    let b = up.skip(i);
    assert(up =~= a + b);
    assert(mid == a + new + b);
    // Under the number of another column.
    let key = column_key(stem, m);
    lemma_with_numbers(mid, tfields, naxis1, pcount, key);
    lemma_other_number(stem, m, at + 1);
    lemma_said_new(new, at + 1, key);
    lemma_said_join(a + new, b, key);
    lemma_said_join(a, new, key);
    lemma_said_join(a, b, key);
    lemma_said_renumbered(cards, at, true, stem, n, m);
    // Under its own number.
    let own = column_key(stem, at + 1);
    lemma_with_numbers(mid, tfields, naxis1, pcount, own);
    lemma_said_join(a + new, b, own);
    lemma_said_join(a, new, own);
    assert forall|k: int| 0 <= k < up.len() implies !labelled(#[trigger] up[k], own) by {
        assert(tidy(cards[k]));
        lemma_renumbered(cards[k], at, true);
        lemma_column_number(cards[k]);
        lemma_labels(up[k], stem, at + 1);
    }
    assert forall|k: int| 0 <= k < a.len() implies !labelled(#[trigger] a[k], own) by {
        assert(a[k] == up[k]);
    }
    assert forall|k: int| 0 <= k < b.len() implies !labelled(#[trigger] b[k], own) by {
        assert(b[k] == up[i + k]);
    }
    lemma_said_none(a, own);
    lemma_said_none(b, own);
}

proof fn lemma_last_end(cards: Seq<Seq<char>>)
    ensures
        last_end(cards) matches Some(i) ==> 0 <= i < cards.len(),
    decreases cards.len(),
{
    if cards.len() > 0 {
        lemma_last_end(cards.drop_last());
    }
}

/// Putting a column in says the new numbers of the table, no longer says where
/// the heap starts, and changes nothing that is said under other keywords that
/// are none of columns.
pub proof fn law_insert_keeps_keywords(
    cards: Seq<Seq<char>>,
    at: usize,
    new: Seq<Seq<char>>,
    tfields: Seq<char>,
    naxis1: Seq<char>,
    pcount: Option<Seq<char>>,
    key: Seq<char>,
)
    requires
        forall|k: int| 0 <= k < cards.len() ==> tidy(#[trigger] cards[k]),
        at < 998,
        all_about(new, at + 1),
        labelled(tfields, "TFIELDS"@),
        labelled(naxis1, "NAXIS1"@),
        pcount matches Some(p) ==> labelled(p, "PCOUNT"@),
        cards_with_column(cards, at, new, tfields, naxis1, pcount) is Ok,
        no_column_key(key),
    ensures
        said(cards_with_column(cards, at, new, tfields, naxis1, pcount)->Ok_0, key) == if key
            == "TFIELDS"@ {
            Some(tfields.skip(8))
        } else if key == "NAXIS1"@ {
            Some(naxis1.skip(8))
        } else if key == "PCOUNT"@ && pcount is Some {
            Some(pcount->0.skip(8))
        } else if key == "THEAP"@ {
            None
        } else {
            said(cards, key)
        },
{
    let up = all_renumbered(cards, at, true);
    let mid = ended_with(up, new)->Ok_0;
    let i = last_end(up)->0;
    lemma_last_end(up);
    let a = up.take(i);
    let b = up.skip(i);
    assert(up =~= a + b);
    assert(mid == a + new + b);
    lemma_with_numbers(mid, tfields, naxis1, pcount, key);
    lemma_said_new(new, at + 1, key);
    lemma_said_join(a + new, b, key);
    lemma_said_join(a, new, key);
    lemma_said_join(a, b, key);
    lemma_said_kept(cards, at, true, key);
}

proof fn lemma_without_column(cards: Seq<Seq<char>>, column: usize, key: Seq<char>)
    requires
        forall|k: int|
            0 <= k < cards.len() ==> !(about(#[trigger] cards[k], column) && labelled(
                cards[k],
                key,
            )),
        forall|k: int| 0 <= k < cards.len() ==> tidy(#[trigger] cards[k]),
    ensures
        said(without_column(cards, column), key) == said(cards, key),
        forall|k: int|
            0 <= k < without_column(cards, column).len() ==> tidy(
                #[trigger] without_column(cards, column)[k],
            ) && !about(without_column(cards, column)[k], column),
    decreases cards.len(),
{
    if cards.len() > 0 {
        let p = cards.drop_last();
        assert forall|k: int| 0 <= k < p.len() implies !(about(#[trigger] p[k], column)
            && labelled(p[k], key)) && tidy(p[k]) by {
            assert(p[k] == cards[k]);
        }
        lemma_without_column(p, column, key);
        let t = without_column(p, column);
        let c = cards.last();
        assert(c == cards[cards.len() - 1]);
        assert(t.push(c).drop_last() =~= t);
    }
}

/// Taking a column out moves what is said of the columns behind it, under every
/// keyword of columns, to the number before, and what is said of the columns
/// before it stays. So nothing that was said of the column is left.
pub proof fn law_delete_moves_keywords(
    cards: Seq<Seq<char>>,
    column: usize,
    tfields: Seq<char>,
    naxis1: Seq<char>,
    stem: Seq<char>,
    n: int,
)
    requires
        forall|k: int| 0 <= k < cards.len() ==> tidy(#[trigger] cards[k]),
        labelled(tfields, "TFIELDS"@),
        labelled(naxis1, "NAXIS1"@),
        cards_without_column(cards, column, tfields, naxis1) is Ok,
        column_stem(stem),
        1 <= n <= 998,
    ensures
        ({
            let after = cards_without_column(cards, column, tfields, naxis1)->Ok_0;
            said(after, column_key(stem, n)) == if n <= column {
                said(cards, column_key(stem, n))
            } else {
                said(cards, column_key(stem, n + 1))
            }
        }),
{
    let was = if n <= column {
        n
    } else {
        n + 1
    };
    let key = column_key(stem, n);
    let old = column_key(stem, was);
    let kept = without_column(cards, column);
    lemma_column_key(stem, n);
    lemma_column_key(stem, was);
    lemma_table_keys();
    assert forall|k: int| 0 <= k < cards.len() implies !(about(#[trigger] cards[k], column)
        && labelled(cards[k], old)) by {
        assert(tidy(cards[k]));
        lemma_column_number(cards[k]);
        lemma_labels(cards[k], stem, was);
    }
    lemma_without_column(cards, column, old);
    lemma_said_renumbered(kept, column, false, stem, was, n);
    lemma_with_numbers(all_renumbered(kept, column, false), tfields, naxis1, None, key);
}

/// Taking a column out says the new numbers of the table, no longer says where
/// the heap starts, and changes nothing that is said under other keywords that
/// are none of columns.
pub proof fn law_delete_keeps_keywords(
    cards: Seq<Seq<char>>,
    column: usize,
    tfields: Seq<char>,
    naxis1: Seq<char>,
    key: Seq<char>,
)
    requires
        forall|k: int| 0 <= k < cards.len() ==> tidy(#[trigger] cards[k]),
        labelled(tfields, "TFIELDS"@),
        labelled(naxis1, "NAXIS1"@),
        cards_without_column(cards, column, tfields, naxis1) is Ok,
        no_column_key(key),
    ensures
        said(cards_without_column(cards, column, tfields, naxis1)->Ok_0, key) == if key
            == "TFIELDS"@ {
            Some(tfields.skip(8))
        } else if key == "NAXIS1"@ {
            Some(naxis1.skip(8))
        } else if key == "THEAP"@ {
            None
        } else {
            said(cards, key)
        },
{
    let kept = without_column(cards, column);
    assert forall|k: int| 0 <= k < cards.len() implies !(about(#[trigger] cards[k], column)
        && labelled(cards[k], key)) by {
        let c = cards[k];
        assert(tidy(c));
        if about(c, column) && labelled(c, key) {
            lemma_column_number(c);
            lemma_stem_texts();
            let (s, q) = column_card(c)->0;
            let n = q as int;
            assert(column_stem(stem_text(s)));
            lemma_column_key(stem_text(s), n);
            lemma_one_label(c, key, column_key(stem_text(s), n));
        }
    }
    lemma_without_column(cards, column, key);
    lemma_said_kept(kept, column, false, key);
    lemma_with_numbers(all_renumbered(kept, column, false), tfields, naxis1, None, key);
}

} // verus!
