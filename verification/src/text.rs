//! Text as sequences of characters: white space, decimal numbers and letter
//! case.

use vstd::prelude::*;

verus! {

/// Appends a character to a string: `String::push`.
pub assume_specification[ String::push ](s: &mut String, c: char)
    ensures
        final(s)@ == old(s)@.push(c),
;

/// What `str::to_uppercase` makes of a text: the Unicode upper case of it.
pub uninterp spec fn uppercase(s: Seq<char>) -> Seq<char>;

/// The Unicode upper case of a text, from `str::to_uppercase`, whose result
/// depends on nothing but the text.
#[verifier::external_body]
pub(crate) fn to_uppercase(s: &str) -> (r: String)
    ensures
        r@ == uppercase(s@),
{
    s.to_uppercase()
}

// Characters of a string ---------------------------------------------------

/// The characters of a string.
pub fn chars_of(s: &str) -> (r: Vec<char>)
    ensures
        r@ == s@,
{
    let mut r: Vec<char> = Vec::new();
    for c in it: s.chars()
        invariant
            it.seq() == s@,
            r@ == it.seq().take(it.index() as int),
    {
        r.push(c);
    }
    assert(s@.take(s@.len() as int) =~= s@);
    r
}

/// The string of the given characters.
pub fn string_of(c: &[char]) -> (r: String)
    ensures
        r@ == c@,
{
    let mut r: String = String::new();
    let n: usize = c.len();
    let mut i: usize = 0;
    assert(r@ =~= c@.take(0));
    while i < n
        invariant
            i <= n == c@.len(),
            r@ == c@.take(i as int),
        decreases n - i,
    {
        r.push(c[i]);
        i = i + 1;
        assert(r@ =~= c@.take(i as int));
    }
    assert(c@.take(n as int) =~= c@);
    r
}

/// A copy of the characters from `a` to before `b`.
pub fn part_of(c: &[char], a: usize, b: usize) -> (r: Vec<char>)
    requires
        a <= b <= c@.len(),
    ensures
        r@ == c@.subrange(a as int, b as int),
{
    let mut r: Vec<char> = Vec::new();
    let mut i: usize = a;
    while i < b
        invariant
            a <= i <= b <= c@.len(),
            r@ == c@.subrange(a as int, i as int),
        decreases b - i,
    {
        r.push(c[i]);
        i = i + 1;
        assert(r@ =~= c@.subrange(a as int, i as int));
    }
    r
}

/// Whether two sequences of characters are the same.
pub fn same_chars(a: &[char], b: &[char]) -> (r: bool)
    ensures
        r == (a@ == b@),
{
    let n: usize = a.len();
    if n != b.len() {
        return false;
    }
    let mut i: usize = 0;
    while i < n
        invariant
            i <= n == a@.len() == b@.len(),
            forall|k: int| 0 <= k < i ==> a@[k] == b@[k],
        decreases n - i,
    {
        if a[i] != b[i] {
            return false;
        }
        i = i + 1;
    }
    assert(a@ =~= b@);
    true
}

/// Whether two texts are the same.
pub fn same_text(a: &str, b: &str) -> (r: bool)
    ensures
        r == (a@ == b@),
{
    let x: Vec<char> = chars_of(a);
    let y: Vec<char> = chars_of(b);
    same_chars(&x, &y)
}

/// The views of a list of texts.
pub open spec fn texts(s: Seq<String>) -> Seq<Seq<char>> {
    Seq::new(s.len(), |i: int| s[i]@)
}

/// Where a text first stands in a list, or `None`.
pub open spec fn first_text(s: Seq<Seq<char>>, want: Seq<char>) -> Option<int>
    decreases s.len(),
{
    if s.len() == 0 {
        None
    } else {
        match first_text(s.drop_last(), want) {
            Some(i) => Some(i),
            None => if s.last() == want {
                Some(s.len() - 1)
            } else {
                None
            },
        }
    }
}

/// The place that `first_text` names holds the text, and none before it does.
pub proof fn lemma_first_text(s: Seq<Seq<char>>, want: Seq<char>)
    ensures
        first_text(s, want) matches Some(i) ==> 0 <= i < s.len() && s[i] == want && forall|j: int|
            0 <= j < i ==> s[j] != want,
        first_text(s, want) is None ==> forall|j: int| 0 <= j < s.len() ==> s[j] != want,
    decreases s.len(),
{
    if s.len() > 0 {
        let t = s.drop_last();
        lemma_first_text(t, want);
        assert(forall|j: int| 0 <= j < t.len() ==> s[j] == t[j]);
    }
}

/// The first place that holds a text is the one that `first_text` names.
pub proof fn lemma_first_text_at(s: Seq<Seq<char>>, want: Seq<char>, i: int)
    requires
        0 <= i < s.len(),
        s[i] == want,
        forall|j: int| 0 <= j < i ==> s[j] != want,
    ensures
        first_text(s, want) == Some(i),
{
    lemma_first_text(s, want);
}

/// Where a text first stands in a list.
pub fn position_of(list: &[String], want: &str) -> (r: Option<usize>)
    ensures
        match r {
            Some(i) => first_text(texts(list@), want@) == Some(i as int) && i < list@.len(),
            None => first_text(texts(list@), want@) is None,
        },
{
    let n: usize = list.len();
    let mut i: usize = 0;
    while i < n
        invariant
            i <= n == list@.len(),
            forall|j: int| 0 <= j < i ==> list@[j]@ != want@,
        decreases n - i,
    {
        if same_text(list[i].as_str(), want) {
            proof {
                lemma_first_text_at(texts(list@), want@, i as int);
            }
            return Some(i);
        }
        i = i + 1;
    }
    proof {
        lemma_first_text(texts(list@), want@);
    }
    None
}

// White space --------------------------------------------------------------

/// Whether a character is white space: the Unicode property White_Space.
pub open spec fn is_white(c: char) -> bool {
    ||| '\u{9}' <= c <= '\u{d}'
    ||| c == ' '
    ||| c == '\u{85}'
    ||| c == '\u{a0}'
    ||| c == '\u{1680}'
    ||| '\u{2000}' <= c <= '\u{200a}'
    ||| c == '\u{2028}'
    ||| c == '\u{2029}'
    ||| c == '\u{202f}'
    ||| c == '\u{205f}'
    ||| c == '\u{3000}'
}

/// Whether a character is white space.
pub fn is_white_space(c: char) -> (r: bool)
    ensures
        r == is_white(c),
{
    ('\u{9}' <= c && c <= '\u{d}') || c == ' ' || c == '\u{85}' || c == '\u{a0}' || c == '\u{1680}'
        || ('\u{2000}' <= c && c <= '\u{200a}') || c == '\u{2028}' || c == '\u{2029}' || c
        == '\u{202f}' || c == '\u{205f}' || c == '\u{3000}'
}

/// The text without the white space at its start.
pub open spec fn trim_start(s: Seq<char>) -> Seq<char>
    decreases s.len(),
{
    if s.len() > 0 && is_white(s[0]) {
        trim_start(s.drop_first())
    } else {
        s
    }
}

/// The text without the white space at its end.
pub open spec fn trim_end(s: Seq<char>) -> Seq<char>
    decreases s.len(),
{
    if s.len() > 0 && is_white(s.last()) {
        trim_end(s.drop_last())
    } else {
        s
    }
}

/// The text without the white space at its two ends.
pub open spec fn trimmed(s: Seq<char>) -> Seq<char> {
    trim_end(trim_start(s))
}

/// Removes the white space at both ends.
pub fn trim(s: &[char]) -> (r: Vec<char>)
    ensures
        r@ == trimmed(s@),
{
    let n: usize = s.len();
    let mut a: usize = 0;
    assert(s@.subrange(0, n as int) =~= s@);
    while a < n && is_white_space(s[a])
        invariant
            a <= n == s@.len(),
            trim_start(s@.subrange(a as int, n as int)) == trim_start(s@),
        decreases n - a,
    {
        proof {
            let t = s@.subrange(a as int, n as int);
            assert(t[0] == s@[a as int]);
            assert(t.drop_first() =~= s@.subrange(a + 1, n as int));
        }
        a = a + 1;
    }
    proof {
        let t = s@.subrange(a as int, n as int);
        assert(a < n ==> t[0] == s@[a as int]);
        assert(trim_start(s@) == t);
    }
    let mut b: usize = n;
    while b > a && is_white_space(s[b - 1])
        invariant
            a <= b <= n == s@.len(),
            trim_start(s@) == s@.subrange(a as int, n as int),
            trim_end(s@.subrange(a as int, b as int)) == trimmed(s@),
        decreases b,
    {
        proof {
            let t = s@.subrange(a as int, b as int);
            assert(t.last() == s@[b - 1]);
            assert(t.drop_last() =~= s@.subrange(a as int, b - 1));
        }
        b = b - 1;
    }
    proof {
        let t = s@.subrange(a as int, b as int);
        assert(a < b ==> t.last() == s@[b - 1]);
        assert(trimmed(s@) == t);
    }
    part_of(s, a, b)
}

// Decimal numbers ----------------------------------------------------------

/// Whether a character is one of the ten decimal digits.
pub open spec fn is_digit(c: char) -> bool {
    '0' <= c <= '9'
}

/// Whether all characters are decimal digits.
pub open spec fn all_digits(s: Seq<char>) -> bool {
    forall|i: int| 0 <= i < s.len() ==> is_digit(#[trigger] s[i])
}

/// The number that a sequence of digits spells.
pub open spec fn digits_value(s: Seq<char>) -> nat
    decreases s.len(),
{
    if s.len() == 0 {
        0
    } else {
        digits_value(s.drop_last()) * 10 + (s.last() as nat - '0' as nat) as nat
    }
}

/// The digits of a text: the text without one leading plus sign.
pub open spec fn unsigned_digits(s: Seq<char>) -> Seq<char> {
    if s.len() > 0 && s[0] == '+' {
        s.drop_first()
    } else {
        s
    }
}

/// The number that a text spells: decimal digits, at least one of them, after
/// an optional plus sign; `None` for any other text and for a number beyond
/// `usize`.
pub open spec fn parsed(s: Seq<char>) -> Option<usize> {
    let d = unsigned_digits(s);
    if d.len() > 0 && all_digits(d) && digits_value(d) <= usize::MAX {
        Some(digits_value(d) as usize)
    } else {
        None
    }
}

/// More digits spell no smaller number.
proof fn lemma_digits_grow(s: Seq<char>, i: int)
    requires
        0 <= i <= s.len(),
        all_digits(s),
    ensures
        digits_value(s.take(i)) <= digits_value(s),
    decreases s.len(),
{
    if i < s.len() {
        assert(all_digits(s.drop_last()));
        lemma_digits_grow(s.drop_last(), i);
        assert(s.drop_last().take(i) =~= s.take(i));
    } else {
        assert(s.take(i) =~= s);
    }
}

/// Reads a decimal number.
pub fn parse_usize(s: &[char]) -> (r: Option<usize>)
    ensures
        r == parsed(s@),
{
    let n: usize = s.len();
    let a: usize = if n > 0 && s[0] == '+' {
        1
    } else {
        0
    };
    let ghost d = unsigned_digits(s@);
    assert(d =~= s@.subrange(a as int, n as int));
    if a == n {
        return None;
    }
    let mut i: usize = a;
    let mut v: usize = 0;
    while i < n
        invariant
            a <= i <= n == s@.len(),
            d == s@.subrange(a as int, n as int),
            d == unsigned_digits(s@),
            a < n,
            v == digits_value(d.take(i - a)),
            all_digits(d.take(i - a)),
        decreases n - i,
    {
        let c: char = s[i];
        let ghost t = d.take(i - a);
        let ghost u = d.take(i + 1 - a);
        proof {
            assert(d[i - a] == c);
            assert(u.drop_last() =~= t);
            assert(u.last() == c);
        }
        if !('0' <= c && c <= '9') {
            assert(!all_digits(d));
            return None;
        }
        let digit: usize = (c as u32 - '0' as u32) as usize;
        proof {
            assert(all_digits(u)) by {
                assert forall|k: int| 0 <= k < u.len() implies is_digit(#[trigger] u[k]) by {
                    if k < t.len() {
                        assert(u[k] == t[k]);
                    }
                }
            }
            assert(digits_value(u) == digits_value(t) * 10 + digit);
            if all_digits(d) {
                lemma_digits_grow(d, i + 1 - a);
            }
        }
        match v.checked_mul(10) {
            None => {
                return None;
            },
            Some(x) => match x.checked_add(digit) {
                None => {
                    return None;
                },
                Some(y) => {
                    v = y;
                },
            },
        }
        i = i + 1;
    }
    assert(d.take(n - a) =~= d);
    Some(v)
}

/// The digit for a number below ten.
pub open spec fn digit_char(d: nat) -> char {
    ('0' as nat + d) as char
}

/// The decimal digits of a number, without leading zeros.
pub open spec fn decimal(n: nat) -> Seq<char>
    decreases n,
{
    if n < 10 {
        seq![digit_char(n)]
    } else {
        decimal(n / 10).push(digit_char(n % 10))
    }
}

fn digit_of(d: u64) -> (r: char)
    requires
        d < 10,
    ensures
        r == digit_char(d as nat),
{
    if d == 0 {
        '0'
    } else if d == 1 {
        '1'
    } else if d == 2 {
        '2'
    } else if d == 3 {
        '3'
    } else if d == 4 {
        '4'
    } else if d == 5 {
        '5'
    } else if d == 6 {
        '6'
    } else if d == 7 {
        '7'
    } else if d == 8 {
        '8'
    } else {
        '9'
    }
}

/// The decimal digits of a number.
pub fn decimal_of(n: u64) -> (r: Vec<char>)
    ensures
        r@ == decimal(n as nat),
    decreases n,
{
    if n < 10 {
        let r: Vec<char> = vec![digit_of(n)];
        assert(r@ =~= decimal(n as nat));
        r
    } else {
        let mut r: Vec<char> = decimal_of(n / 10);
        r.push(digit_of(n % 10));
        r
    }
}

/// The digits of a number spell that number.
pub proof fn lemma_decimal_value(n: nat)
    ensures
        decimal(n).len() > 0,
        all_digits(decimal(n)),
        digits_value(decimal(n)) == n,
    decreases n,
{
    if n < 10 {
        reveal_with_fuel(digits_value, 2);
        assert(decimal(n).drop_last() =~= Seq::empty());
    } else {
        lemma_decimal_value(n / 10);
        assert(decimal(n).drop_last() =~= decimal(n / 10));
        let d = decimal(n);
        assert forall|k: int| 0 <= k < d.len() implies is_digit(#[trigger] d[k]) by {
            if k < decimal(n / 10).len() {
                assert(d[k] == decimal(n / 10)[k]);
            }
        }
    }
}

/// What is written in decimal reads back as the same number.
pub proof fn law_decimal_parses(n: usize)
    ensures
        parsed(decimal(n as nat)) == Some(n),
{
    lemma_decimal_value(n as nat);
    assert(is_digit(decimal(n as nat)[0]));
}

// Letter case --------------------------------------------------------------

/// An ASCII letter in upper case; any other character as it is.
pub open spec fn ascii_upper(c: char) -> char {
    if 'a' <= c <= 'z' {
        (c as u8 - 32) as char
    } else {
        c
    }
}

/// The text with its ASCII letters in upper case.
pub open spec fn ascii_upper_text(s: Seq<char>) -> Seq<char> {
    Seq::new(s.len(), |i: int| ascii_upper(s[i]))
}

fn ascii_upper_char(c: char) -> (r: char)
    ensures
        r == ascii_upper(c),
{
    if 'a' <= c && c <= 'z' {
        (c as u8 - 32) as char
    } else {
        c
    }
}

/// The text with its ASCII letters in upper case.
pub fn to_ascii_upper(s: &[char]) -> (r: Vec<char>)
    ensures
        r@ == ascii_upper_text(s@),
{
    let n: usize = s.len();
    let mut r: Vec<char> = Vec::new();
    let mut i: usize = 0;
    while i < n
        invariant
            i <= n == s@.len(),
            r@ == ascii_upper_text(s@).take(i as int),
        decreases n - i,
    {
        r.push(ascii_upper_char(s[i]));
        i = i + 1;
        assert(r@ =~= ascii_upper_text(s@).take(i as int));
    }
    assert(r@ =~= ascii_upper_text(s@));
    r
}

/// Whether a character is an ASCII letter.
pub open spec fn is_letter(c: char) -> bool {
    'A' <= c <= 'Z' || 'a' <= c <= 'z'
}

/// Whether a character is an ASCII letter.
pub fn is_ascii_letter(c: char) -> (r: bool)
    ensures
        r == is_letter(c),
{
    ('A' <= c && c <= 'Z') || ('a' <= c && c <= 'z')
}

} // verus!
