//! Cards of a header as texts: finding, renumbering, dropping and inserting
//! them.

use vstd::prelude::*;

use crate::columns::{Descriptor, opt_text};
use crate::create::{WriteColumn, WriteColumnView};
use crate::error::{EditError, HeaderError};
use crate::header::{
    Card, CardValue, CardValueView, CardView, card_views, column_cards, descriptor_sign, int_card,
    lemma_trimmed, numbered, push_column_cards, text_card,
};
use crate::keywords::{Tform, before_letter, tform_pieces};
use crate::text::{
    all_digits, chars_of, decimal, decimal_of, digits_value, is_digit, is_white_space,
    lemma_decimal_value, parse_usize, parsed, part_of, same_chars, string_of, texts, trim,
    trim_end, trimmed, unsigned_digits,
};

verus! {

// Bytes of a text ----------------------------------------------------------

/// How many bytes a character takes in a text.
pub open spec fn char_width(c: char) -> nat {
    if c <= '\u{7f}' {
        1
    } else if c <= '\u{7ff}' {
        2
    } else if c <= '\u{ffff}' {
        3
    } else {
        4
    }
}

/// How many bytes a text takes.
pub open spec fn byte_len(s: Seq<char>) -> nat
    decreases s.len(),
{
    if s.len() == 0 {
        0
    } else {
        byte_len(s.drop_last()) + char_width(s.last())
    }
}

/// How many characters the first `n` bytes of a text are, where they are whole
/// characters.
pub open spec fn cut(s: Seq<char>, n: nat) -> Option<int>
    decreases s.len(),
{
    if byte_len(s) == n {
        Some(s.len() as int)
    } else if s.len() == 0 {
        None
    } else {
        cut(s.drop_last(), n)
    }
}

/// The first `n` bytes of a text, where they are whole characters.
pub open spec fn head(s: Seq<char>, n: nat) -> Option<Seq<char>> {
    match cut(s, n) {
        Some(k) => Some(s.take(k)),
        None => None,
    }
}

proof fn lemma_byte_len(s: Seq<char>, i: int, j: int)
    requires
        0 <= i <= j <= s.len(),
    ensures
        byte_len(s.take(i)) + (j - i) <= byte_len(s.take(j)),
    decreases j,
{
    if i < j {
        lemma_byte_len(s, i, j - 1);
        assert(s.take(j).drop_last() =~= s.take(j - 1));
    }
}

/// A cut is where the bytes before it are as many as asked for.
pub proof fn lemma_cut(s: Seq<char>, n: nat, i: int)
    requires
        0 <= i <= s.len(),
        byte_len(s.take(i)) == n,
    ensures
        cut(s, n) == Some(i),
    decreases s.len(),
{
    assert(s.take(s.len() as int) =~= s);
    if i < s.len() {
        lemma_byte_len(s, i, s.len() as int);
        assert(s.drop_last().take(i) =~= s.take(i));
        lemma_cut(s.drop_last(), n, i);
    }
}

proof fn lemma_no_cut(s: Seq<char>, n: nat)
    requires
        forall|i: int| 0 <= i <= s.len() ==> byte_len(#[trigger] s.take(i)) != n,
    ensures
        cut(s, n) is None,
    decreases s.len(),
{
    assert(s.take(s.len() as int) =~= s);
    if s.len() > 0 {
        assert forall|i: int| 0 <= i <= s.len() - 1 implies byte_len(
            #[trigger] s.drop_last().take(i),
        ) != n by {
            assert(s.drop_last().take(i) =~= s.take(i));
        }
        lemma_no_cut(s.drop_last(), n);
    }
}

/// A cut lies within the text, at the number of bytes asked for.
pub proof fn lemma_cut_at(s: Seq<char>, n: nat)
    ensures
        cut(s, n) matches Some(k) ==> 0 <= k <= s.len() && byte_len(s.take(k)) == n && k <= n,
    decreases s.len(),
{
    if byte_len(s) == n {
        assert(s.take(s.len() as int) =~= s);
        lemma_byte_len(s, 0, s.len() as int);
        assert(byte_len(s.take(0)) == 0);
    } else if s.len() > 0 {
        lemma_cut_at(s.drop_last(), n);
        match cut(s.drop_last(), n) {
            Some(k) => {
                assert(s.drop_last().take(k) =~= s.take(k));
            },
            None => {},
        }
    }
}

fn width_of(c: char) -> (r: usize)
    ensures
        r == char_width(c),
{
    if c <= '\u{7f}' {
        1
    } else if c <= '\u{7ff}' {
        2
    } else if c <= '\u{ffff}' {
        3
    } else {
        4
    }
}

/// How many bytes a text takes.
pub fn bytes_of_text(s: &str) -> (r: usize)
    ensures
        r == byte_len(s@),
{
    let b: &[u8] = s.as_bytes();
    proof {
        lemma_encoded_bytes(s@);
    }
    b.len()
}

proof fn lemma_encoded_bytes(s: Seq<char>)
    ensures
        vstd::utf8::encode_utf8(s).len() == byte_len(s),
    decreases s.len(),
{
    if s.len() > 0 {
        lemma_encoded_bytes(s.drop_first());
        vstd::utf8::char_is_scalar(s[0]);
        vstd::utf8::char_u32_cast(s[0], s[0] as u32);
        assert(s =~= seq![s[0]] + s.drop_first());
        lemma_byte_len_add(seq![s[0]], s.drop_first());
        reveal_with_fuel(byte_len, 2);
        assert(seq![s[0]].drop_last() =~= Seq::empty());
        assert(byte_len(seq![s[0]]) == char_width(s[0]));
    }
}

/// The first `n` bytes of a text, where they are whole characters.
fn head_of(s: &[char], n: usize) -> (r: Option<Vec<char>>)
    requires
        n <= 1000,
    ensures
        match r {
            Some(h) => head(s@, n as nat) == Some(h@),
            None => head(s@, n as nat) is None,
        },
{
    let total: usize = s.len();
    let mut i: usize = 0;
    let mut bytes: usize = 0;
    assert(byte_len(s@.take(0)) == 0);
    while i < total && bytes < n
        invariant
            i <= total == s@.len(),
            n <= 1000,
            bytes <= n + 4,
            bytes == byte_len(s@.take(i as int)),
            i > 0 ==> byte_len(s@.take(i - 1)) < n,
        decreases total - i,
    {
        assert(s@.take(i + 1).drop_last() =~= s@.take(i as int));
        bytes = bytes + width_of(s[i]);
        i = i + 1;
    }
    if bytes == n {
        proof {
            lemma_cut(s@, n as nat, i as int);
        }
        let h: Vec<char> = part_of(s, 0, i);
        assert(h@ =~= s@.take(i as int));
        Some(h)
    } else {
        proof {
            assert forall|k: int| 0 <= k <= s@.len() implies byte_len(#[trigger] s@.take(k))
                != n by {
                if k < i {
                    lemma_byte_len(s@, k, i - 1);
                } else {
                    lemma_byte_len(s@, i as int, k);
                }
            }
            lemma_no_cut(s@, n as nat);
        }
        None
    }
}

/// How many bytes a text takes, up to a bound.
fn longer_than(s: &[char], n: usize) -> (r: bool)
    requires
        n <= 1000,
    ensures
        r == (byte_len(s@) > n),
{
    let total: usize = s.len();
    let mut i: usize = 0;
    let mut bytes: usize = 0;
    assert(byte_len(s@.take(0)) == 0);
    assert(s@.take(total as int) =~= s@);
    while i < total && bytes <= n
        invariant
            i <= total == s@.len(),
            n <= 1000,
            bytes <= n + 4,
            bytes == byte_len(s@.take(i as int)),
        decreases total - i,
    {
        assert(s@.take(i + 1).drop_last() =~= s@.take(i as int));
        bytes = bytes + width_of(s[i]);
        i = i + 1;
    }
    proof {
        lemma_byte_len(s@, i as int, total as int);
    }
    bytes > n
}

/// Removes the white space at the end.
fn trim_tail(s: &[char]) -> (r: Vec<char>)
    ensures
        r@ == trim_end(s@),
{
    let n: usize = s.len();
    let mut i: usize = n;
    assert(s@.take(n as int) =~= s@);
    while i > 0 && is_white_space(s[i - 1])
        invariant
            i <= n == s@.len(),
            trim_end(s@) == trim_end(s@.take(i as int)),
        decreases i,
    {
        assert(s@.take(i as int).drop_last() =~= s@.take(i - 1));
        i = i - 1;
    }
    let r: Vec<char> = part_of(s, 0, i);
    assert(r@ =~= s@.take(i as int));
    r
}

// Keywords -----------------------------------------------------------------

/// The keyword of a card: its first eight bytes without the spaces at their
/// end.
pub open spec fn keyword(card: Seq<char>) -> Option<Seq<char>> {
    match head(card, 8) {
        Some(h) => Some(trim_end(h)),
        None => None,
    }
}

/// Whether the first `n` bytes of a card are a word, with spaces around it.
pub open spec fn opens_with(card: Seq<char>, n: nat, word: Seq<char>) -> bool {
    head(card, n) matches Some(h) && trimmed(h) == word
}

/// The keyword of a card.
fn keyword_of(card: &[char]) -> (r: Option<Vec<char>>)
    ensures
        match r {
            Some(k) => keyword(card@) == Some(k@),
            None => keyword(card@) is None,
        },
{
    match head_of(card, 8) {
        Some(h) => Some(trim_tail(&h)),
        None => None,
    }
}

fn is_opening(card: &[char], n: usize, word: &str) -> (r: bool)
    requires
        n <= 1000,
    ensures
        r == opens_with(card@, n as nat, word@),
{
    match head_of(card, n) {
        Some(h) => {
            let t: Vec<char> = trim(&h);
            let w: Vec<char> = chars_of(word);
            same_chars(&t, &w)
        },
        None => false,
    }
}

/// The first card whose opening is a word.
pub open spec fn first_opening(cards: Seq<Seq<char>>, n: nat, word: Seq<char>) -> Option<int>
    decreases cards.len(),
{
    if cards.len() == 0 {
        None
    } else {
        match first_opening(cards.drop_last(), n, word) {
            Some(i) => Some(i),
            None => if opens_with(cards.last(), n, word) {
                Some(cards.len() - 1)
            } else {
                None
            },
        }
    }
}

proof fn lemma_first_opening(cards: Seq<Seq<char>>, n: nat, word: Seq<char>, k: int)
    requires
        0 <= k <= cards.len(),
        first_opening(cards.take(k), n, word) is Some,
    ensures
        first_opening(cards, n, word) == first_opening(cards.take(k), n, word),
    decreases cards.len(),
{
    if k < cards.len() {
        assert(cards.drop_last().take(k) =~= cards.take(k));
        lemma_first_opening(cards.drop_last(), n, word, k);
    } else {
        assert(cards.take(k) =~= cards);
    }
}

/// Finds the first card whose opening is a word.
fn find_opening(cards: &Vec<String>, n: usize, word: &str) -> (r: Option<usize>)
    requires
        n <= 1000,
    ensures
        match r {
            Some(i) => first_opening(texts(cards@), n as nat, word@) == Some(i as int) && i
                < cards@.len(),
            None => first_opening(texts(cards@), n as nat, word@) is None,
        },
{
    let total: usize = cards.len();
    let ghost t = texts(cards@);
    let mut i: usize = 0;
    assert(t.take(0) =~= Seq::empty());
    while i < total
        invariant
            i <= total == cards@.len() == t.len(),
            t == texts(cards@),
            n <= 1000,
            first_opening(t.take(i as int), n as nat, word@) is None,
        decreases total - i,
    {
        assert(t.take(i + 1).drop_last() =~= t.take(i as int));
        let c: Vec<char> = chars_of(cards[i].as_str());
        if is_opening(&c, n, word) {
            proof {
                lemma_first_opening(t, n as nat, word@, i + 1);
            }
            return Some(i);
        }
        i = i + 1;
    }
    assert(t.take(total as int) =~= t);
    None
}

/// The last card that ends a header.
pub open spec fn last_end(cards: Seq<Seq<char>>) -> Option<int>
    decreases cards.len(),
{
    if cards.len() == 0 {
        None
    } else if opens_with(cards.last(), 3, "END"@) {
        Some(cards.len() - 1)
    } else {
        last_end(cards.drop_last())
    }
}

/// `cards` with others put in before the one at `i`.
pub open spec fn put_in(cards: Seq<Seq<char>>, i: int, new: Seq<Seq<char>>) -> Seq<Seq<char>> {
    cards.take(i) + new + cards.skip(i)
}

/// Puts cards in before the one that ends the header.
pub fn insert_cards_before_end(cards: &mut Vec<String>, new: Vec<String>) -> (r: Result<
    (),
    EditError,
>)
    ensures
        match last_end(texts(old(cards)@)) {
            Some(i) => r is Ok && texts(final(cards)@) == put_in(
                texts(old(cards)@),
                i,
                texts(new@),
            ),
            None => r == Err::<(), EditError>(EditError::MissingEnd) && texts(final(cards)@)
                == texts(old(cards)@),
        },
{
    let ghost t = texts(cards@);
    let mut i: usize = cards.len();
    assert(t.take(i as int) =~= t);
    while i > 0
        invariant
            i <= cards@.len() == t.len(),
            cards@ == old(cards)@,
            t == texts(cards@),
            last_end(t) == last_end(t.take(i as int)),
        decreases i,
    {
        assert(t.take(i as int).drop_last() =~= t.take(i - 1));
        let c: Vec<char> = chars_of(cards[i - 1].as_str());
        if is_opening(&c, 3, "END") {
            let ghost n = new@;
            let mut tail: Vec<String> = cards.split_off(i - 1);
            let mut more: Vec<String> = new;
            cards.append(&mut more);
            cards.append(&mut tail);
            assert(texts(cards@) =~= put_in(t, i - 1, texts(n)));
            return Ok(());
        }
        i = i - 1;
    }
    Err(EditError::MissingEnd)
}

// Cards of columns ---------------------------------------------------------

/// The stems of the keywords that are numbered by column.
#[derive(Clone, Copy, PartialEq, Eq, Structural, Debug)]
pub enum Stem {
    Ttype,
    Tform,
    Tdim,
    Tunit,
    Tzero,
    Tscal,
    Tnull,
    Tdisp,
    Tbcol,
}

/// The text of a stem.
pub open spec fn stem_text(s: Stem) -> Seq<char> {
    match s {
        Stem::Ttype => "TTYPE"@,
        Stem::Tform => "TFORM"@,
        Stem::Tdim => "TDIM"@,
        Stem::Tunit => "TUNIT"@,
        Stem::Tzero => "TZERO"@,
        Stem::Tscal => "TSCAL"@,
        Stem::Tnull => "TNULL"@,
        Stem::Tdisp => "TDISP"@,
        Stem::Tbcol => "TBCOL"@,
    }
}

fn stem_chars(s: Stem) -> (r: Vec<char>)
    ensures
        r@ == stem_text(s),
{
    match s {
        Stem::Ttype => chars_of("TTYPE"),
        Stem::Tform => chars_of("TFORM"),
        Stem::Tdim => chars_of("TDIM"),
        Stem::Tunit => chars_of("TUNIT"),
        Stem::Tzero => chars_of("TZERO"),
        Stem::Tscal => chars_of("TSCAL"),
        Stem::Tnull => chars_of("TNULL"),
        Stem::Tdisp => chars_of("TDISP"),
        Stem::Tbcol => chars_of("TBCOL"),
    }
}

/// The stems, in the order in which they are tried.
pub open spec fn stems() -> Seq<Stem> {
    seq![
        Stem::Ttype,
        Stem::Tform,
        Stem::Tdim,
        Stem::Tunit,
        Stem::Tzero,
        Stem::Tscal,
        Stem::Tnull,
        Stem::Tdisp,
        Stem::Tbcol,
    ]
}

/// The number of the column that a keyword with a stem is about.
pub open spec fn stem_number(key: Seq<char>, s: Stem) -> Option<usize> {
    let n = stem_text(s).len() as int;
    if key.len() > n && key.take(n) == stem_text(s) && all_digits(key.skip(n)) && 1
        <= digits_value(key.skip(n)) <= usize::MAX {
        Some(digits_value(key.skip(n)) as usize)
    } else {
        None
    }
}

/// The first of `k` stems that a keyword has, and its number.
pub open spec fn stem_among(key: Seq<char>, k: nat) -> Option<(Stem, usize)>
    decreases k,
{
    if k == 0 {
        None
    } else {
        match stem_among(key, (k - 1) as nat) {
            Some(p) => Some(p),
            None => match stem_number(key, stems()[k - 1]) {
                Some(n) => Some((stems()[k - 1], n)),
                None => None,
            },
        }
    }
}

/// Which column a card is about: the stem of its keyword, and the number.
pub open spec fn column_card(card: Seq<char>) -> Option<(Stem, usize)> {
    match keyword(card) {
        Some(key) => stem_among(key, 9),
        None => None,
    }
}

fn number_with(key: &[char], s: Stem) -> (r: Option<usize>)
    ensures
        r == stem_number(key@, s),
{
    let stem: Vec<char> = stem_chars(s);
    let n: usize = stem.len();
    let total: usize = key.len();
    if total <= n {
        return None;
    }
    let start: Vec<char> = part_of(key, 0, n);
    assert(start@ =~= key@.take(n as int));
    if !same_chars(&start, &stem) {
        return None;
    }
    let rest: Vec<char> = part_of(key, n, total);
    assert(rest@ =~= key@.skip(n as int));
    let m: usize = rest.len();
    let mut i: usize = 0;
    while i < m
        invariant
            i <= m == rest@.len(),
            rest@ == key@.skip(n as int),
            n == stem_text(s).len(),
            forall|k: int| 0 <= k < i ==> is_digit(#[trigger] rest@[k]),
        decreases m - i,
    {
        if !('0' <= rest[i] && rest[i] <= '9') {
            assert(!is_digit(rest@[i as int]));
            return None;
        }
        i = i + 1;
    }
    assert(all_digits(rest@));
    assert(unsigned_digits(rest@) == rest@) by {
        assert(is_digit(rest@[0]));
    }
    match parse_usize(&rest) {
        Some(v) => if v >= 1 {
            Some(v)
        } else {
            None
        },
        None => None,
    }
}

/// Says which column a card is about.
pub fn parse_per_column_card(card: &str) -> (r: Option<(Stem, usize)>)
    ensures
        r == column_card(card@),
{
    let c: Vec<char> = chars_of(card);
    let key: Vec<char> = match keyword_of(&c) {
        Some(k) => k,
        None => {
            return None;
        },
    };
    let list: [Stem; 9] = [
        Stem::Ttype,
        Stem::Tform,
        Stem::Tdim,
        Stem::Tunit,
        Stem::Tzero,
        Stem::Tscal,
        Stem::Tnull,
        Stem::Tdisp,
        Stem::Tbcol,
    ];
    assert(list@ =~= stems());
    let mut i: usize = 0;
    while i < 9
        invariant
            i <= 9,
            list@ == stems(),
            list@.len() == 9,
            keyword(card@) == Some(key@),
            stem_among(key@, i as nat) is None,
        decreases 9 - i,
    {
        let s: Stem = list[i];
        match number_with(&key, s) {
            Some(n) => {
                proof {
                    lemma_stem_among(key@, (i + 1) as nat, 9);
                }
                return Some((s, n));
            },
            None => {},
        }
        i = i + 1;
    }
    None
}

proof fn lemma_stem_among(key: Seq<char>, m: nat, k: nat)
    requires
        m <= k,
        stem_among(key, m) is Some,
    ensures
        stem_among(key, k) == stem_among(key, m),
    decreases k,
{
    if m < k {
        lemma_stem_among(key, m, (k - 1) as nat);
    }
}

/// The number of a column in a keyword is at most four digits long.
pub proof fn lemma_column_number(card: Seq<char>)
    ensures
        column_card(card) matches Some((s, n)) ==> 1 <= n <= 9999 && cut(card, 8) is Some,
{
    if column_card(card) is Some {
        let h = head(card, 8)->0;
        let key = trim_end(h);
        lemma_cut_at(card, 8);
        lemma_trim_len(h);
        lemma_stem_bound(key, 9);
    }
}

proof fn lemma_trim_len(s: Seq<char>)
    ensures
        trim_end(s).len() <= s.len(),
    decreases s.len(),
{
    if s.len() > 0 {
        lemma_trim_len(s.drop_last());
    }
}

proof fn lemma_stem_bound(key: Seq<char>, k: nat)
    requires
        key.len() <= 8,
        k <= 9,
    ensures
        stem_among(key, k) matches Some((s, n)) ==> 1 <= n <= 9999 && stem_number(key, s) == Some(
            n,
        ),
    decreases k,
{
    if k > 0 {
        lemma_stem_bound(key, (k - 1) as nat);
        let s = stems()[k - 1];
        lemma_stem_len(s);
        let n = stem_text(s).len() as int;
        if key.len() > n && all_digits(key.skip(n)) {
            lemma_four_digits(key.skip(n));
        }
    }
}

/// Stems have four or five characters.
pub proof fn lemma_stem_len(s: Stem)
    ensures
        4 <= stem_text(s).len() <= 5,
{
    reveal_strlit("TTYPE");
    reveal_strlit("TFORM");
    reveal_strlit("TDIM");
    reveal_strlit("TUNIT");
    reveal_strlit("TZERO");
    reveal_strlit("TSCAL");
    reveal_strlit("TNULL");
    reveal_strlit("TDISP");
    reveal_strlit("TBCOL");
}

proof fn lemma_four_digits(d: Seq<char>)
    requires
        d.len() <= 4,
        all_digits(d),
    ensures
        digits_value(d) <= 9999,
{
    reveal_with_fuel(digits_value, 5);
    if d.len() >= 1 {
        assert(is_digit(d[d.len() - 1]));
    }
    if d.len() >= 2 {
        assert(is_digit(d[d.len() - 2]));
    }
    if d.len() >= 3 {
        assert(is_digit(d[d.len() - 3]));
    }
    if d.len() >= 4 {
        assert(is_digit(d[d.len() - 4]));
    }
}

/// A keyword, filled up with spaces to eight characters.
pub open spec fn filled(key: Seq<char>) -> Seq<char> {
    if key.len() >= 8 {
        key
    } else {
        key + Seq::new((8 - key.len()) as nat, |i: int| ' ')
    }
}

/// A card with another keyword of a column: what stands behind its first eight
/// bytes stays.
pub open spec fn rebuilt(card: Seq<char>, s: Stem, n: nat) -> Seq<char> {
    let key = filled(numbered(stem_text(s), n));
    if byte_len(card) <= 8 {
        key
    } else {
        key + card.skip(cut(card, 8)->0)
    }
}

/// Gives a card another keyword of a column.
pub fn rebuild_per_column_card(card: &str, s: Stem, n: usize) -> (r: String)
    requires
        byte_len(card@) <= 8 || cut(card@, 8) is Some,
    ensures
        r@ == rebuilt(card@, s, n as nat),
{
    let c: Vec<char> = chars_of(card);
    let mut out: Vec<char> = stem_chars(s);
    let mut d: Vec<char> = decimal_of(n as u64);
    out.append(&mut d);
    let ghost key = numbered(stem_text(s), n as nat);
    assert(out@ =~= key);
    while out.len() < 8
        invariant
            key.len() <= out@.len(),
            out@.len() <= 8 || out@.len() == key.len(),
            out@ == key + Seq::new((out@.len() - key.len()) as nat, |i: int| ' '),
        decreases 8 - out@.len(),
    {
        out.push(' ');
        assert(out@ =~= key + Seq::new((out@.len() - key.len()) as nat, |i: int| ' '));
    }
    assert(out@ =~= filled(key));
    if longer_than(&c, 8) {
        match head_of(&c, 8) {
            Some(h) => {
                let total: usize = c.len();
                let k: usize = h.len();
                proof {
                    lemma_cut_at(c@, 8);
                }
                let mut rest: Vec<char> = part_of(&c, k, total);
                assert(rest@ =~= c@.skip(cut(c@, 8)->0));
                out.append(&mut rest);
            },
            None => {},
        }
    }
    string_of(&out)
}

/// What becomes of a card where the columns from `pivot` on get a number more,
/// or the ones behind it a number less.
pub open spec fn renumbered(card: Seq<char>, pivot: usize, up: bool) -> Seq<char> {
    match column_card(card) {
        Some((s, n)) => if up && n >= pivot + 1 {
            rebuilt(card, s, (n + 1) as nat)
        } else if !up && n > pivot + 1 {
            rebuilt(card, s, (n - 1) as nat)
        } else {
            card
        },
        None => card,
    }
}

/// What becomes of cards.
pub open spec fn all_renumbered(cards: Seq<Seq<char>>, pivot: usize, up: bool) -> Seq<Seq<char>> {
    Seq::new(cards.len(), |i: int| renumbered(cards[i], pivot, up))
}

/// Gives the columns from `pivot` on a number more, or the ones behind it a
/// number less.
pub fn renumber_per_column_cards(cards: &mut Vec<String>, pivot: usize, up: bool)
    ensures
        texts(final(cards)@) == all_renumbered(texts(old(cards)@), pivot, up),
{
    let total: usize = cards.len();
    let ghost t = texts(cards@);
    let ghost want = all_renumbered(t, pivot, up);
    let mut i: usize = 0;
    while i < total
        invariant
            i <= total == cards@.len() == t.len() == want.len(),
            t == texts(old(cards)@),
            want == all_renumbered(t, pivot, up),
            forall|k: int| 0 <= k < i ==> (#[trigger] cards@[k])@ == want[k],
            forall|k: int| i <= k < total ==> (#[trigger] cards@[k])@ == t[k],
        decreases total - i,
    {
        proof {
            lemma_column_number(t[i as int]);
        }
        match parse_per_column_card(cards[i].as_str()) {
            Some((s, n)) => {
                let new: Option<usize> = if up {
                    if n > pivot {
                        Some(n + 1)
                    } else {
                        None
                    }
                } else {
                    if n - 1 > pivot {
                        Some(n - 1)
                    } else {
                        None
                    }
                };
                match new {
                    Some(m) => {
                        let c: String = rebuild_per_column_card(cards[i].as_str(), s, m);
                        cards.set(i, c);
                    },
                    None => {},
                }
            },
            None => {},
        }
        i = i + 1;
    }
    assert(texts(cards@) =~= want);
}

/// Whether a card is about column `i`, which counts from 0.
pub open spec fn about(card: Seq<char>, i: usize) -> bool {
    column_card(card) matches Some((s, n)) && n == i + 1
}

/// The cards that are not about column `i`.
pub open spec fn without_column(cards: Seq<Seq<char>>, i: usize) -> Seq<Seq<char>>
    decreases cards.len(),
{
    if cards.len() == 0 {
        Seq::empty()
    } else {
        let t = without_column(cards.drop_last(), i);
        if about(cards.last(), i) {
            t
        } else {
            t.push(cards.last())
        }
    }
}

/// Drops the cards that are about a column.
pub fn drop_per_column_cards(cards: Vec<String>, column: usize) -> (r: Vec<String>)
    ensures
        texts(r@) == without_column(texts(cards@), column),
{
    let total: usize = cards.len();
    let ghost t = texts(cards@);
    let mut out: Vec<String> = Vec::new();
    let mut i: usize = 0;
    assert(t.take(0) =~= Seq::empty());
    assert(texts(out@) =~= Seq::empty());
    while i < total
        invariant
            i <= total == cards@.len() == t.len(),
            t == texts(cards@),
            texts(out@) == without_column(t.take(i as int), column),
        decreases total - i,
    {
        assert(t.take(i + 1).drop_last() =~= t.take(i as int));
        proof {
            lemma_column_number(t[i as int]);
        }
        let drop: bool = match parse_per_column_card(cards[i].as_str()) {
            Some((_, n)) => n - 1 == column,
            None => false,
        };
        if !drop {
            let ghost was = texts(out@);
            out.push(cards[i].clone());
            assert(texts(out@) =~= was.push(t[i as int]));
        }
        i = i + 1;
    }
    assert(t.take(total as int) =~= t);
    out
}

// Single cards -------------------------------------------------------------

/// The first card with a keyword.
pub open spec fn first_keyword(cards: Seq<Seq<char>>, key: Seq<char>) -> Option<int>
    decreases cards.len(),
{
    if cards.len() == 0 {
        None
    } else {
        match first_keyword(cards.drop_last(), key) {
            Some(i) => Some(i),
            None => if keyword(cards.last()) == Some(key) {
                Some(cards.len() - 1)
            } else {
                None
            },
        }
    }
}

pub proof fn lemma_first_keyword(cards: Seq<Seq<char>>, key: Seq<char>, k: int)
    requires
        0 <= k <= cards.len(),
        first_keyword(cards.take(k), key) is Some,
    ensures
        first_keyword(cards, key) == first_keyword(cards.take(k), key),
    decreases cards.len(),
{
    if k < cards.len() {
        assert(cards.drop_last().take(k) =~= cards.take(k));
        lemma_first_keyword(cards.drop_last(), key, k);
    } else {
        assert(cards.take(k) =~= cards);
    }
}

/// Finds the first card with a keyword.
pub fn find_keyword(cards: &Vec<String>, key: &str) -> (r: Option<usize>)
    ensures
        match r {
            Some(i) => first_keyword(texts(cards@), key@) == Some(i as int) && i < cards@.len(),
            None => first_keyword(texts(cards@), key@) is None,
        },
{
    let total: usize = cards.len();
    let ghost t = texts(cards@);
    let want: Vec<char> = chars_of(key);
    let mut i: usize = 0;
    assert(t.take(0) =~= Seq::empty());
    while i < total
        invariant
            i <= total == cards@.len() == t.len(),
            t == texts(cards@),
            want@ == key@,
            first_keyword(t.take(i as int), key@) is None,
        decreases total - i,
    {
        assert(t.take(i + 1).drop_last() =~= t.take(i as int));
        let c: Vec<char> = chars_of(cards[i].as_str());
        match keyword_of(&c) {
            Some(k) => if same_chars(&k, &want) {
                proof {
                    lemma_first_keyword(t, key@, i + 1);
                }
                return Some(i);
            },
            None => {},
        }
        i = i + 1;
    }
    assert(t.take(total as int) =~= t);
    None
}

/// Puts a card in the place of the first one with a keyword.
pub fn update_int_card(cards: &mut Vec<String>, key: &str, card: String) -> (r: Result<
    (),
    EditError,
>)
    ensures
        match first_keyword(texts(old(cards)@), key@) {
            Some(i) => r is Ok && texts(final(cards)@) == texts(old(cards)@).update(i, card@),
            None => r == Err::<(), EditError>(EditError::MissingKeyword) && texts(final(cards)@)
                == texts(old(cards)@),
        },
{
    match find_keyword(cards, key) {
        Some(i) => {
            let ghost t = texts(cards@);
            let ghost c = card@;
            cards.set(i, card);
            assert(texts(cards@) =~= t.update(i as int, c));
            Ok(())
        },
        None => Err(EditError::MissingKeyword),
    }
}

/// What is said of a number in a header.
pub open spec fn number_comment(key: Seq<char>) -> Seq<char> {
    if key == "NAXIS1"@ {
        "width of table in bytes"@
    } else if key == "NAXIS2"@ {
        "number of rows in table"@
    } else if key == "TFIELDS"@ {
        "number of columns"@
    } else {
        ""@
    }
}

/// The card of a number that an edit changes.
pub fn number_card(key: &str, value: i64) -> (r: Card)
    ensures
        r@ == int_card(key@, value, number_comment(key@)),
{
    let comment: &str = if crate::text::same_text(key, "NAXIS1") {
        "width of table in bytes"
    } else if crate::text::same_text(key, "NAXIS2") {
        "number of rows in table"
    } else if crate::text::same_text(key, "TFIELDS") {
        "number of columns"
    } else {
        ""
    };
    Card { key: key.to_owned(), value: CardValue::Int(value), comment: comment.to_owned() }
}

/// The card of the size of the heap.
pub fn pcount_card(pcount: u64) -> (r: Card)
    requires
        pcount <= i64::MAX,
    ensures
        r@ == int_card("PCOUNT"@, pcount as i64, "size of special data area"@),
{
    Card {
        key: "PCOUNT".to_owned(),
        value: CardValue::Int(pcount as i64),
        comment: "size of special data area".to_owned(),
    }
}

/// What becomes of cards where the size of the heap is to be said: the card
/// that says it is replaced. Where there is none, the new one goes before
/// TFIELDS, and where that is missing too, before the last.
pub open spec fn with_pcount(cards: Seq<Seq<char>>, card: Seq<char>) -> Seq<Seq<char>> {
    match first_opening(cards, 6, "PCOUNT"@) {
        Some(i) => cards.update(i, card),
        None => match first_opening(cards, 7, "TFIELDS"@) {
            Some(i) => cards.insert(i, card),
            None => cards.insert(cards.len() - 1, card),
        },
    }
}

/// Says the size of the heap in the cards.
pub fn set_pcount_in_cards(cards: &mut Vec<String>, card: String)
    requires
        old(cards)@.len() > 0,
    ensures
        texts(final(cards)@) == with_pcount(texts(old(cards)@), card@),
{
    let ghost t = texts(cards@);
    let ghost c = card@;
    match find_opening(cards, 6, "PCOUNT") {
        Some(i) => {
            cards.set(i, card);
            assert(texts(cards@) =~= t.update(i as int, c));
        },
        None => {
            let at: usize = match find_opening(cards, 7, "TFIELDS") {
                Some(i) => i,
                None => cards.len() - 1,
            };
            cards.insert(at, card);
            assert(texts(cards@) =~= t.insert(at as int, c));
        },
    }
}

/// Says the number of rows in the cards.
pub fn set_naxis2_in_cards(cards: &mut Vec<String>, card: String) -> (r: Result<(), EditError>)
    ensures
        match first_opening(texts(old(cards)@), 6, "NAXIS2"@) {
            Some(i) => r is Ok && texts(final(cards)@) == texts(old(cards)@).update(i, card@),
            None => r == Err::<(), EditError>(EditError::MissingKeyword) && texts(final(cards)@)
                == texts(old(cards)@),
        },
{
    match find_opening(cards, 6, "NAXIS2") {
        Some(i) => {
            let ghost t = texts(cards@);
            let ghost c = card@;
            cards.set(i, card);
            assert(texts(cards@) =~= t.update(i as int, c));
            Ok(())
        },
        None => Err(EditError::MissingKeyword),
    }
}

/// Says where the heap starts in the cards, where one of them says so already.
pub fn set_theap_in_cards(cards: &mut Vec<String>, card: String)
    ensures
        texts(final(cards)@) == match first_keyword(texts(old(cards)@), "THEAP"@) {
            Some(i) => texts(old(cards)@).update(i, card@),
            None => texts(old(cards)@),
        },
{
    match update_int_card(cards, "THEAP", card) {
        Ok(_) => {},
        Err(_) => {},
    }
}

// The cards of an edit -----------------------------------------------------

/// What becomes of cards where the first one with a keyword is replaced.
pub open spec fn replaced(cards: Seq<Seq<char>>, key: Seq<char>, card: Seq<char>) -> Result<
    Seq<Seq<char>>,
    EditError,
> {
    match first_keyword(cards, key) {
        Some(i) => Ok(cards.update(i, card)),
        None => Err(EditError::MissingKeyword),
    }
}

/// What becomes of cards where `new` ones are put in before the last.
pub open spec fn ended_with(cards: Seq<Seq<char>>, new: Seq<Seq<char>>) -> Result<
    Seq<Seq<char>>,
    EditError,
> {
    match last_end(cards) {
        Some(i) => Ok(put_in(cards, i, new)),
        None => Err(EditError::MissingEnd),
    }
}

/// The cards without those that say where the heap starts. A reader then takes
/// it to start right behind the rows.
pub open spec fn without_theap(cards: Seq<Seq<char>>) -> Seq<Seq<char>>
    decreases cards.len(),
{
    if cards.len() == 0 {
        Seq::empty()
    } else {
        let t = without_theap(cards.drop_last());
        if keyword(cards.last()) == Some("THEAP"@) {
            t
        } else {
            t.push(cards.last())
        }
    }
}

/// Drops the cards that say where the heap starts.
fn drop_theap(cards: Vec<String>) -> (r: Vec<String>)
    ensures
        texts(r@) == without_theap(texts(cards@)),
{
    let total: usize = cards.len();
    let ghost t = texts(cards@);
    let want: Vec<char> = chars_of("THEAP");
    let mut out: Vec<String> = Vec::new();
    let mut i: usize = 0;
    assert(t.take(0) =~= Seq::empty());
    assert(texts(out@) =~= Seq::empty());
    while i < total
        invariant
            i <= total == cards@.len() == t.len(),
            t == texts(cards@),
            want@ == "THEAP"@,
            texts(out@) == without_theap(t.take(i as int)),
        decreases total - i,
    {
        assert(t.take(i + 1).drop_last() =~= t.take(i as int));
        let c: Vec<char> = chars_of(cards[i].as_str());
        let drop: bool = match keyword_of(&c) {
            Some(k) => same_chars(&k, &want),
            None => false,
        };
        if !drop {
            let ghost was = texts(out@);
            out.push(cards[i].clone());
            assert(texts(out@) =~= was.push(t[i as int]));
        }
        i = i + 1;
    }
    assert(t.take(total as int) =~= t);
    out
}

/// No card is left that says where the heap starts, and those that say
/// something else all stay.
pub proof fn law_without_theap(cards: Seq<Seq<char>>)
    ensures
        first_keyword(without_theap(cards), "THEAP"@) is None,
        first_keyword(cards, "THEAP"@) is None ==> without_theap(cards) == cards,
    decreases cards.len(),
{
    if cards.len() > 0 {
        let p = cards.drop_last();
        law_without_theap(p);
        let t = without_theap(p);
        assert(t.push(cards.last()).drop_last() =~= t);
        assert(p.push(cards.last()) =~= cards);
    }
}

/// The numbers of a table in its header: the number of columns, the bytes of a
/// row and, where it changes, the size of the heap.
#[derive(Debug)]
pub struct NumberCards {
    pub tfields: String,
    pub naxis1: String,
    pub pcount: Option<String>,
}

/// What becomes of cards where numbers of the table change. The heap moves with
/// the end of the rows, so no card says another place for it.
pub open spec fn with_numbers(
    cards: Seq<Seq<char>>,
    tfields: Seq<char>,
    naxis1: Seq<char>,
    pcount: Option<Seq<char>>,
) -> Result<Seq<Seq<char>>, EditError> {
    match replaced(cards, "TFIELDS"@, tfields) {
        Err(e) => Err(e),
        Ok(c) => match replaced(c, "NAXIS1"@, naxis1) {
            Err(e) => Err(e),
            Ok(d) => match pcount {
                None => Ok(without_theap(d)),
                Some(p) => match replaced(d, "PCOUNT"@, p) {
                    Err(e) => Err(e),
                    Ok(h) => Ok(without_theap(h)),
                },
            },
        },
    }
}

/// What becomes of cards where a column is put in: the columns from `at` on get
/// a number more, its cards come last, and the numbers of the table change.
pub open spec fn cards_with_column(
    cards: Seq<Seq<char>>,
    at: usize,
    new: Seq<Seq<char>>,
    tfields: Seq<char>,
    naxis1: Seq<char>,
    pcount: Option<Seq<char>>,
) -> Result<Seq<Seq<char>>, EditError> {
    match ended_with(all_renumbered(cards, at, true), new) {
        Err(e) => Err(e),
        Ok(c) => with_numbers(c, tfields, naxis1, pcount),
    }
}

/// What becomes of cards where a column is taken out: its cards go, the columns
/// behind it get a number less, and the numbers of the table change.
pub open spec fn cards_without_column(
    cards: Seq<Seq<char>>,
    column: usize,
    tfields: Seq<char>,
    naxis1: Seq<char>,
) -> Result<Seq<Seq<char>>, EditError> {
    with_numbers(
        all_renumbered(without_column(cards, column), column, false),
        tfields,
        naxis1,
        None,
    )
}

fn set_numbers(cards: Vec<String>, numbers: NumberCards) -> (r: Result<Vec<String>, EditError>)
    ensures
        match with_numbers(
            texts(cards@),
            numbers.tfields@,
            numbers.naxis1@,
            opt_text(numbers.pcount),
        ) {
            Ok(c) => r matches Ok(v) && texts(v@) == c,
            Err(e) => r == Err::<Vec<String>, EditError>(e),
        },
{
    let mut out: Vec<String> = cards;
    match update_int_card(&mut out, "TFIELDS", numbers.tfields) {
        Err(e) => {
            return Err(e);
        },
        Ok(_) => {},
    }
    match update_int_card(&mut out, "NAXIS1", numbers.naxis1) {
        Err(e) => {
            return Err(e);
        },
        Ok(_) => {},
    }
    match numbers.pcount {
        Some(p) => match update_int_card(&mut out, "PCOUNT", p) {
            Err(e) => {
                return Err(e);
            },
            Ok(_) => {},
        },
        None => {},
    }
    Ok(drop_theap(out))
}

/// The cards of the table with a column put in at a place. `new` are the cards
/// of that column.
pub fn insert_column_cards(
    cards: Vec<String>,
    at: usize,
    new: Vec<String>,
    numbers: NumberCards,
) -> (r: Result<Vec<String>, EditError>)
    ensures
        ({
            let want = cards_with_column(
                texts(cards@),
                at,
                texts(new@),
                numbers.tfields@,
                numbers.naxis1@,
                opt_text(numbers.pcount),
            );
            match r {
                Ok(c) => want == Ok::<Seq<Seq<char>>, EditError>(texts(c@)),
                Err(e) => want == Err::<Seq<Seq<char>>, EditError>(e),
            }
        }),
{
    let mut out: Vec<String> = cards;
    renumber_per_column_cards(&mut out, at, true);
    match insert_cards_before_end(&mut out, new) {
        Err(e) => {
            return Err(e);
        },
        Ok(_) => {},
    }
    set_numbers(out, numbers)
}

/// The cards of the table with a column taken out.
pub fn delete_column_cards(cards: Vec<String>, column: usize, numbers: NumberCards) -> (r: Result<
    Vec<String>,
    EditError,
>)
    requires
        numbers.pcount is None,
    ensures
        ({
            let want = cards_without_column(
                texts(cards@),
                column,
                numbers.tfields@,
                numbers.naxis1@,
            );
            match r {
                Ok(c) => want == Ok::<Seq<Seq<char>>, EditError>(texts(c@)),
                Err(e) => want == Err::<Seq<Seq<char>>, EditError>(e),
            }
        }),
{
    let mut out: Vec<String> = drop_per_column_cards(cards, column);
    renumber_per_column_cards(&mut out, column, false);
    set_numbers(out, numbers)
}

// The hint of a column of bits in the heap ---------------------------------

/// The first place of a character.
pub open spec fn first_char(s: Seq<char>, c: char) -> Option<int>
    decreases s.len(),
{
    if s.len() == 0 {
        None
    } else {
        match first_char(s.drop_last(), c) {
            Some(i) => Some(i),
            None => if s.last() == c {
                Some(s.len() - 1)
            } else {
                None
            },
        }
    }
}

/// The last place of a character.
pub open spec fn last_char(s: Seq<char>, c: char) -> Option<int>
    decreases s.len(),
{
    if s.len() == 0 {
        None
    } else if s.last() == c {
        Some(s.len() - 1)
    } else {
        last_char(s.drop_last(), c)
    }
}

/// The number in round brackets in a card; 0 where there is none.
pub open spec fn hint_of(card: Seq<char>) -> usize {
    match (first_char(card, '('), last_char(card, ')')) {
        (Some(a), Some(b)) => if b > a {
            match parsed(trimmed(card.subrange(a + 1, b))) {
                Some(n) => n,
                None => 0,
            }
        } else {
            0
        },
        _ => 0,
    }
}

proof fn lemma_first_char(s: Seq<char>, c: char, k: int)
    requires
        0 <= k <= s.len(),
        first_char(s.take(k), c) is Some,
    ensures
        first_char(s, c) == first_char(s.take(k), c),
    decreases s.len(),
{
    if k < s.len() {
        assert(s.drop_last().take(k) =~= s.take(k));
        lemma_first_char(s.drop_last(), c, k);
    } else {
        assert(s.take(k) =~= s);
    }
}

fn find_char(s: &[char], c: char) -> (r: Option<usize>)
    ensures
        match r {
            Some(i) => first_char(s@, c) == Some(i as int) && i < s@.len(),
            None => first_char(s@, c) is None,
        },
{
    let n: usize = s.len();
    let mut i: usize = 0;
    assert(s@.take(0) =~= Seq::empty());
    while i < n
        invariant
            i <= n == s@.len(),
            first_char(s@.take(i as int), c) is None,
        decreases n - i,
    {
        assert(s@.take(i + 1).drop_last() =~= s@.take(i as int));
        if s[i] == c {
            proof {
                lemma_first_char(s@, c, i + 1);
            }
            return Some(i);
        }
        i = i + 1;
    }
    assert(s@.take(n as int) =~= s@);
    None
}

fn find_last_char(s: &[char], c: char) -> (r: Option<usize>)
    ensures
        match r {
            Some(i) => last_char(s@, c) == Some(i as int) && i < s@.len(),
            None => last_char(s@, c) is None,
        },
{
    let n: usize = s.len();
    let mut i: usize = n;
    assert(s@.take(n as int) =~= s@);
    while i > 0
        invariant
            i <= n == s@.len(),
            last_char(s@, c) == last_char(s@.take(i as int), c),
        decreases i,
    {
        assert(s@.take(i as int).drop_last() =~= s@.take(i - 1));
        if s[i - 1] == c {
            return Some(i - 1);
        }
        i = i - 1;
    }
    None
}

fn read_hint(card: &[char]) -> (r: usize)
    ensures
        r == hint_of(card@),
{
    match (find_char(card, '('), find_last_char(card, ')')) {
        (Some(a), Some(b)) => if b > a {
            let inside: Vec<char> = part_of(card, a + 1, b);
            assert(inside@ =~= card@.subrange(a + 1, b as int));
            let t: Vec<char> = trim(&inside);
            match parse_usize(&t) {
                Some(n) => n,
                None => 0,
            }
        } else {
            0
        },
        _ => 0,
    }
}

/// Whether a card has a keyword, which may be longer than the eight bytes that
/// keywords have.
pub open spec fn has_keyword(card: Seq<char>, key: Seq<char>) -> bool {
    let n = if key.len() > 8 {
        key.len()
    } else {
        8
    };
    head(card, n) matches Some(h) && trim_end(h) == key
}

/// The first card that has a keyword, however long.
pub open spec fn first_with(cards: Seq<Seq<char>>, key: Seq<char>) -> Option<int>
    decreases cards.len(),
{
    if cards.len() == 0 {
        None
    } else {
        match first_with(cards.drop_last(), key) {
            Some(i) => Some(i),
            None => if has_keyword(cards.last(), key) {
                Some(cards.len() - 1)
            } else {
                None
            },
        }
    }
}

proof fn lemma_first_with(cards: Seq<Seq<char>>, key: Seq<char>, k: int)
    requires
        0 <= k <= cards.len(),
        first_with(cards.take(k), key) is Some,
    ensures
        first_with(cards, key) == first_with(cards.take(k), key),
    decreases cards.len(),
{
    if k < cards.len() {
        assert(cards.drop_last().take(k) =~= cards.take(k));
        lemma_first_with(cards.drop_last(), key, k);
    } else {
        assert(cards.take(k) =~= cards);
    }
}

/// The text of a TFORM of bits in the heap, with the largest number of bits in
/// a cell as a hint.
pub open spec fn hinted_tform(kind: Descriptor, bits: nat) -> Seq<char> {
    seq!['1', descriptor_sign(kind), 'X', '('] + decimal(bits) + seq![')']
}

fn hinted_tform_of(kind: Descriptor, bits: usize) -> (r: String)
    ensures
        r@ == hinted_tform(kind, bits as nat),
{
    let sign: char = match kind {
        Descriptor::P => 'P',
        Descriptor::Q => 'Q',
    };
    let mut text: Vec<char> = vec!['1', sign, 'X', '('];
    let mut d: Vec<char> = decimal_of(bits as u64);
    text.append(&mut d);
    text.push(')');
    assert(text@ =~= hinted_tform(kind, bits as nat));
    string_of(&text)
}

/// The cards of a new column with number `n`. The TFORM of bits in the heap tells
/// the bits of the longest cell.
pub open spec fn new_column_cards(c: WriteColumnView, n: nat, hint: Option<usize>) -> Seq<CardView> {
    let cards = column_cards(c, n);
    match (hint, c.var_kind) {
        (Some(bits), Some(kind)) => cards.update(
            1,
            text_card(
                numbered("TFORM"@, n),
                hinted_tform(kind, bits as nat),
                "data format of column"@,
            ),
        ),
        _ => cards,
    }
}

/// Makes the cards of a new column.
pub fn build_new_column_cards(c: &WriteColumn, n: u64, hint: Option<usize>) -> (r: Vec<Card>)
    ensures
        card_views(r@) == new_column_cards(c@, n as nat, hint),
{
    let mut cards: Vec<Card> = Vec::new();
    push_column_cards(&mut cards, c, n);
    assert(card_views(cards@) =~= column_cards(c@, n as nat));
    match (hint, c.var_kind) {
        (Some(bits), Some(kind)) => {
            let card: Card = Card {
                key: crate::header::numbered_key("TFORM", n),
                value: CardValue::Text(hinted_tform_of(kind, bits)),
                comment: "data format of column".to_owned(),
            };
            let ghost was = cards@;
            assert(card_views(was).len() == was.len());
            assert(was.len() >= 2);
            cards.set(1, card);
            assert(card_views(cards@) =~= card_views(was).update(1, card@));
        },
        _ => {},
    }
    cards
}

/// The TFORM of bits in the heap reads back as the form of its descriptors and
/// bits, whatever the hint.
pub proof fn law_hinted_tform_round_trip(kind: Descriptor, bits: nat, column: u64)
    ensures
        tform_pieces(hinted_tform(kind, bits), column) == Ok::<Tform, HeaderError>(
            Tform { repeat: 1, letter: descriptor_sign(kind), inner: Some('X') },
        ),
{
    let s = hinted_tform(kind, bits);
    let d = decimal(bits);
    lemma_decimal_value(bits);
    lemma_trimmed(s);
    reveal_with_fuel(before_letter, 3);
    assert(s[0] == '1' && s[1] == descriptor_sign(kind) && s[2] == 'X' && s[3] == '(');
    assert(s.last() == ')');
    assert(s.drop_first()[0] == s[1]);
    assert(before_letter(s) == 1);
    assert(s.take(1) =~= decimal(1));
    crate::text::law_decimal_parses(1);
    let trailing = s.skip(2);
    assert(trailing[0] == 'X' && trailing.last() == ')');
    lemma_trimmed(trailing);
    let after = trailing.drop_first();
    assert(after[0] == '(' && after.last() == ')');
    lemma_trimmed(after);
}

/// The TFORM card of column number `n` with a hint of at least `bits`, and its
/// place: a larger hint that it has stays. Nothing where the column has no such
/// card.
pub open spec fn hinted(cards: Seq<Seq<char>>, n: nat, kind: Descriptor, bits: usize) -> Option<
    (int, CardView),
> {
    let key = numbered("TFORM"@, n);
    match first_with(cards, key) {
        None => None,
        Some(i) => {
            let had = hint_of(cards[i]);
            let most = if had > bits {
                had
            } else {
                bits
            };
            Some((i, text_card(key, hinted_tform(kind, most as nat), "data format of column"@)))
        },
    }
}

/// Gives the TFORM card of column number `n`, whose cells are bits in the heap,
/// a hint of at least `bits`, and says where it stands.
pub fn set_x_vla_tform_maxlen_in_cards(
    cards: &Vec<String>,
    n: usize,
    kind: Descriptor,
    bits: usize,
) -> (r: Option<(usize, Card)>)
    ensures
        match r {
            Some((i, c)) => hinted(texts(cards@), n as nat, kind, bits) == Some((i as int, c@))
                && i < cards@.len(),
            None => hinted(texts(cards@), n as nat, kind, bits) is None,
        },
{
    let key: String = crate::header::numbered_key("TFORM", n as u64);
    let want: Vec<char> = chars_of(key.as_str());
    let ghost k = numbered("TFORM"@, n as nat);
    let width: usize = if want.len() > 8 {
        want.len()
    } else {
        8
    };
    proof {
        reveal_strlit("TFORM");
        reveal_with_fuel(pow10, 21);
        lemma_decimal_len(n as nat, 20);
    }
    let total: usize = cards.len();
    let ghost t = texts(cards@);
    let mut i: usize = 0;
    assert(t.take(0) =~= Seq::empty());
    while i < total
        invariant
            i <= total == cards@.len() == t.len(),
            t == texts(cards@),
            want@ == k,
            key@ == k,
            k == numbered("TFORM"@, n as nat),
            width <= 1000,
            width == if k.len() > 8 {
                k.len()
            } else {
                8
            },
            first_with(t.take(i as int), k) is None,
        decreases total - i,
    {
        assert(t.take(i + 1).drop_last() =~= t.take(i as int));
        let c: Vec<char> = chars_of(cards[i].as_str());
        match head_of(&c, width) {
            Some(h) => {
                let h: Vec<char> = trim_tail(&h);
                if same_chars(&h, &want) {
                    proof {
                        lemma_first_with(t, k, i + 1);
                    }
                    let had: usize = read_hint(&c);
                    let most: usize = if had > bits {
                        had
                    } else {
                        bits
                    };
                    let card: Card = Card {
                        key,
                        value: CardValue::Text(hinted_tform_of(kind, most)),
                        comment: "data format of column".to_owned(),
                    };
                    return Some((i, card));
                }
            },
            None => {},
        }
        i = i + 1;
    }
    assert(t.take(total as int) =~= t);
    None
}

/// A number below a power of ten has no more digits than that power has zeros.
proof fn lemma_decimal_len(n: nat, k: nat)
    requires
        k > 0,
        n < pow10(k),
    ensures
        decimal(n).len() <= k,
    decreases k,
{
    if n >= 10 {
        if k == 1 {
            reveal_with_fuel(pow10, 2);
        }
        lemma_decimal_len(n / 10, (k - 1) as nat);
    }
}

spec fn pow10(k: nat) -> nat
    decreases k,
{
    if k == 0 {
        1
    } else {
        10 * pow10((k - 1) as nat)
    }
}

/// The hint of a column never gets smaller: it is the larger of what the card
/// has and what is asked for.
pub proof fn law_hint_grows(cards: Seq<Seq<char>>, n: nat, kind: Descriptor, bits: usize)
    ensures
        hinted(cards, n, kind, bits) matches Some((i, c)) ==> exists|most: usize|
            most >= bits && most >= hint_of(cards[i]) && (most == bits || most == hint_of(cards[i]))
                && c.value == CardValueView::Text(#[trigger] hinted_tform(kind, most as nat)),
{
    match hinted(cards, n, kind, bits) {
        Some((i, c)) => {
            let had = hint_of(cards[i]);
            let most = if had > bits {
                had
            } else {
                bits
            };
            assert(c.value == CardValueView::Text(hinted_tform(kind, most as nat)));
        },
        None => {},
    }
}

// Laws ---------------------------------------------------------------------

/// Whether a card that is about a column has the keyword that a writer gives
/// it, and there is room for the next number.
pub open spec fn regular(card: Seq<char>) -> bool {
    column_card(card) matches Some((s, n)) ==> {
        &&& card.len() >= 8
        &&& card.take(8) == filled(numbered(stem_text(s), n as nat))
        &&& numbered(stem_text(s), n as nat).len() <= 8
        &&& numbered(stem_text(s), (n + 1) as nat).len() <= 8
    }
}

pub proof fn lemma_byte_len_add(a: Seq<char>, b: Seq<char>)
    ensures
        byte_len(a + b) == byte_len(a) + byte_len(b),
    decreases b.len(),
{
    if b.len() == 0 {
        assert(a + b =~= a);
    } else {
        assert((a + b).drop_last() =~= a + b.drop_last());
        lemma_byte_len_add(a, b.drop_last());
    }
}

pub proof fn lemma_ascii_len(s: Seq<char>)
    requires
        forall|i: int| 0 <= i < s.len() ==> #[trigger] s[i] <= '\u{7f}',
    ensures
        byte_len(s) == s.len(),
    decreases s.len(),
{
    if s.len() > 0 {
        let t = s.drop_last();
        assert forall|i: int| 0 <= i < t.len() implies #[trigger] t[i] <= '\u{7f}' by {
            assert(t[i] == s[i]);
        }
        lemma_ascii_len(t);
        assert(s[s.len() - 1] <= '\u{7f}');
    }
}

/// No keyword has two stems.
proof fn lemma_one_stem(key: Seq<char>, s: Stem, n: usize, k: nat)
    requires
        stem_number(key, s) == Some(n),
        k <= 9,
    ensures
        stem_among(key, k) == (if exists|i: int| 0 <= i < k && #[trigger] stems()[i] == s {
            Some((s, n))
        } else {
            None
        }),
    decreases k,
{
    if k > 0 {
        lemma_one_stem(key, s, n, (k - 1) as nat);
        let u = stems()[k - 1];
        if u != s && stem_number(key, u) is Some {
            lemma_stem_clash(key, s, u);
        }
        if u == s {
            assert(stems()[k - 1] == s);
        } else if exists|i: int| 0 <= i < k && #[trigger] stems()[i] == s {
            let i = choose|i: int| 0 <= i < k && #[trigger] stems()[i] == s;
            assert(0 <= i < k - 1 && stems()[i] == s);
        }
    }
}

proof fn lemma_stem_clash(key: Seq<char>, s: Stem, u: Stem)
    requires
        stem_number(key, s) is Some,
        stem_number(key, u) is Some,
    ensures
        s == u,
{
    reveal_strlit("TTYPE");
    reveal_strlit("TFORM");
    reveal_strlit("TDIM");
    reveal_strlit("TUNIT");
    reveal_strlit("TZERO");
    reveal_strlit("TSCAL");
    reveal_strlit("TNULL");
    reveal_strlit("TDISP");
    reveal_strlit("TBCOL");
    let a = stem_text(s);
    let b = stem_text(u);
    let x = key.take(a.len() as int);
    let y = key.take(b.len() as int);
    assert(x[1] == key[1] && y[1] == key[1]);
    assert(x[3] == key[3] && y[3] == key[3]);
    assert(a[1] == b[1]);
    assert(a[3] == b[3]);
}

proof fn lemma_stem_listed(s: Stem)
    ensures
        exists|i: int| 0 <= i < 9 && #[trigger] stems()[i] == s,
{
    let l = stems();
    assert(l[0] == Stem::Ttype && l[1] == Stem::Tform && l[2] == Stem::Tdim);
    assert(l[3] == Stem::Tunit && l[4] == Stem::Tzero && l[5] == Stem::Tscal);
    assert(l[6] == Stem::Tnull && l[7] == Stem::Tdisp && l[8] == Stem::Tbcol);
}

/// The keyword of a column is eight bytes of ASCII once it is filled up, and
/// names the stem and the number.
pub proof fn lemma_numbered(s: Stem, n: usize)
    requires
        n >= 1,
        numbered(stem_text(s), n as nat).len() <= 8,
    ensures
        ({
            let key = numbered(stem_text(s), n as nat);
            &&& filled(key).len() == 8
            &&& byte_len(filled(key)) == 8
            &&& trim_end(filled(key)) == key
            &&& stem_among(key, 9) == Some((s, n))
        }),
{
    reveal_strlit("TTYPE");
    reveal_strlit("TFORM");
    reveal_strlit("TDIM");
    reveal_strlit("TUNIT");
    reveal_strlit("TZERO");
    reveal_strlit("TSCAL");
    reveal_strlit("TNULL");
    reveal_strlit("TDISP");
    reveal_strlit("TBCOL");
    let stem = stem_text(s);
    let d = decimal(n as nat);
    let key = numbered(stem, n as nat);
    let m = stem.len() as int;
    crate::text::lemma_decimal_value(n as nat);
    assert(key.take(m) =~= stem);
    assert(key.skip(m) =~= d);
    assert(stem_number(key, s) == Some(n));
    lemma_one_stem(key, s, n, 9);
    lemma_stem_listed(s);
    let f = filled(key);
    assert forall|i: int| 0 <= i < f.len() implies #[trigger] f[i] <= '\u{7f}' by {
        if m <= i < key.len() {
            assert(f[i] == d[i - m]);
            assert(is_digit(d[i - m]));
        } else if i < m {
            assert(f[i] == stem[i]);
        }
    }
    lemma_ascii_len(f);
    assert(is_digit(d[d.len() - 1]));
    assert(key.last() == d[d.len() - 1]);
    lemma_trim_spaces(key, (8 - key.len()) as nat);
    assert(f =~= key + Seq::new((8 - key.len()) as nat, |i: int| ' '));
}

pub proof fn lemma_trim_spaces(key: Seq<char>, k: nat)
    requires
        key.len() > 0,
        !crate::text::is_white(key.last()),
    ensures
        trim_end(key + Seq::new(k, |i: int| ' ')) == key,
    decreases k,
{
    let s = key + Seq::new(k, |i: int| ' ');
    if k == 0 {
        assert(s =~= key);
    } else {
        assert(s.last() == ' ');
        assert(s.drop_last() =~= key + Seq::new((k - 1) as nat, |i: int| ' '));
        lemma_trim_spaces(key, (k - 1) as nat);
    }
}

/// A regular card that gets another number is about that number, and gets back
/// to what it was with the number that it had.
pub proof fn law_rebuild_undone(card: Seq<char>, s: Stem, n: usize, m: usize)
    requires
        column_card(card) == Some((s, n)),
        regular(card),
        m >= 1,
        numbered(stem_text(s), m as nat).len() <= 8,
    ensures
        column_card(rebuilt(card, s, m as nat)) == Some((s, m)),
        rebuilt(rebuilt(card, s, m as nat), s, n as nat) == card,
{
    let old = filled(numbered(stem_text(s), n as nat));
    let new = filled(numbered(stem_text(s), m as nat));
    lemma_column_number(card);
    lemma_numbered(s, n);
    lemma_numbered(s, m);
    let rest = card.skip(8);
    assert(card =~= old + rest);
    lemma_cut(card, 8, 8);
    lemma_byte_len_add(old, rest);
    let c = rebuilt(card, s, m as nat);
    lemma_rest_len(rest);
    assert(c =~= new + rest);
    lemma_byte_len_add(new, rest);
    assert(c.take(8) =~= new);
    lemma_cut(c, 8, 8);
    assert(c.skip(8) =~= rest);
    assert(rebuilt(c, s, n as nat) =~= card);
}

proof fn lemma_rest_len(rest: Seq<char>)
    ensures
        byte_len(rest) == 0 <==> rest.len() == 0,
{
}

proof fn lemma_without_add(a: Seq<Seq<char>>, b: Seq<Seq<char>>, i: usize)
    ensures
        without_column(a + b, i) == without_column(a, i) + without_column(b, i),
    decreases b.len(),
{
    if b.len() == 0 {
        assert(a + b =~= a);
        assert(without_column(a, i) + Seq::<Seq<char>>::empty() =~= without_column(a, i));
    } else {
        assert((a + b).drop_last() =~= a + b.drop_last());
        lemma_without_add(a, b.drop_last(), i);
        assert(without_column(a + b, i) =~= without_column(a, i) + without_column(b, i));
    }
}

proof fn lemma_without_none(a: Seq<Seq<char>>, i: usize)
    requires
        forall|k: int| 0 <= k < a.len() ==> !about(#[trigger] a[k], i),
    ensures
        without_column(a, i) == a,
    decreases a.len(),
{
    if a.len() > 0 {
        let t = a.drop_last();
        assert forall|k: int| 0 <= k < t.len() implies !about(#[trigger] t[k], i) by {
            assert(t[k] == a[k]);
        }
        lemma_without_none(t, i);
        assert(!about(a[a.len() - 1], i));
        assert(t.push(a.last()) =~= a);
    }
}

proof fn lemma_without_all(a: Seq<Seq<char>>, i: usize)
    requires
        forall|k: int| 0 <= k < a.len() ==> about(#[trigger] a[k], i),
    ensures
        without_column(a, i) == Seq::<Seq<char>>::empty(),
    decreases a.len(),
{
    if a.len() > 0 {
        let t = a.drop_last();
        assert forall|k: int| 0 <= k < t.len() implies about(#[trigger] t[k], i) by {
            assert(t[k] == a[k]);
        }
        lemma_without_all(t, i);
        assert(about(a[a.len() - 1], i));
    }
}

/// Making room for a column in the cards, putting its cards in anywhere, and
/// then dropping the column and closing the gap gives back the cards.
pub proof fn law_drop_undoes_insert(
    cards: Seq<Seq<char>>,
    pivot: usize,
    new: Seq<Seq<char>>,
    at: int,
)
    requires
        forall|k: int| 0 <= k < cards.len() ==> regular(#[trigger] cards[k]),
        forall|k: int| 0 <= k < new.len() ==> about(#[trigger] new[k], pivot),
        0 <= at <= cards.len(),
    ensures
        all_renumbered(
            without_column(put_in(all_renumbered(cards, pivot, true), at, new), pivot),
            pivot,
            false,
        ) == cards,
{
    let up = all_renumbered(cards, pivot, true);
    assert forall|k: int| 0 <= k < up.len() implies !about(#[trigger] up[k], pivot)
        && renumbered(up[k], pivot, false) == cards[k] by {
        let c = cards[k];
        assert(regular(c));
        lemma_column_number(c);
        match column_card(c) {
            Some((s, n)) => {
                if n >= pivot + 1 {
                    let m = (n + 1) as usize;
                    law_rebuild_undone(c, s, n, m);
                }
            },
            None => {},
        }
    }
    let a = up.take(at);
    let b = up.skip(at);
    assert forall|k: int| 0 <= k < a.len() implies !about(#[trigger] a[k], pivot) by {
        assert(a[k] == up[k]);
    }
    assert forall|k: int| 0 <= k < b.len() implies !about(#[trigger] b[k], pivot) by {
        assert(b[k] == up[at + k]);
    }
    lemma_without_add(a + new, b, pivot);
    lemma_without_add(a, new, pivot);
    lemma_without_none(a, pivot);
    lemma_without_none(b, pivot);
    lemma_without_all(new, pivot);
    let kept = without_column(put_in(up, at, new), pivot);
    assert(kept =~= up);
    assert(all_renumbered(kept, pivot, false) =~= cards);
}

} // verus!
