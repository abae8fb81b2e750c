//! The array types that columns are read into and written from, and the lookup
//! of columns by name.

use vstd::prelude::*;

use crate::columns::{
    Column, ColumnView, Letter, ScalingKind, column_ok, dims_present, scaling, scaling_kind, views,
};
use crate::error::ColumnError;
use crate::text::{
    ascii_upper_text, chars_of, decimal, decimal_of, same_chars, string_of, texts, to_ascii_upper,
    trim, trimmed,
};

verus! {

/// The element type of an array.
#[derive(Clone, Copy, PartialEq, Eq, Structural, Debug)]
pub enum NumpyType {
    Bool,
    I1,
    U1,
    I2,
    U2,
    I4,
    U4,
    I8,
    U8,
    F4,
    F8,
    C8,
    C16,
    /// Strings of so many characters.
    Text(usize),
    /// Strings of so many bytes.
    Bytes(usize),
    /// One object for each row.
    Object,
}

/// The code of an element type, as array libraries spell it.
pub open spec fn type_code(t: NumpyType) -> Seq<char> {
    match t {
        NumpyType::Bool => seq!['?'],
        NumpyType::I1 => seq!['i', '1'],
        NumpyType::U1 => seq!['u', '1'],
        NumpyType::I2 => seq!['i', '2'],
        NumpyType::U2 => seq!['u', '2'],
        NumpyType::I4 => seq!['i', '4'],
        NumpyType::U4 => seq!['u', '4'],
        NumpyType::I8 => seq!['i', '8'],
        NumpyType::U8 => seq!['u', '8'],
        NumpyType::F4 => seq!['f', '4'],
        NumpyType::F8 => seq!['f', '8'],
        NumpyType::C8 => seq!['c', '8'],
        NumpyType::C16 => seq!['c', '1', '6'],
        NumpyType::Text(n) => seq!['U'] + decimal(n as nat),
        NumpyType::Bytes(n) => seq!['S'] + decimal(n as nat),
        NumpyType::Object => seq!['O'],
    }
}

fn coded(first: char, n: usize) -> (r: Vec<char>)
    ensures
        r@ == seq![first] + decimal(n as nat),
{
    let mut r: Vec<char> = vec![first];
    let mut d: Vec<char> = decimal_of(n as u64);
    r.append(&mut d);
    assert(r@ =~= seq![first] + decimal(n as nat));
    r
}

impl NumpyType {
    /// The code of the element type.
    pub fn code(self) -> (r: String)
        ensures
            r@ == type_code(self),
    {
        let c: Vec<char> = match self {
            NumpyType::Bool => vec!['?'],
            NumpyType::I1 => vec!['i', '1'],
            NumpyType::U1 => vec!['u', '1'],
            NumpyType::I2 => vec!['i', '2'],
            NumpyType::U2 => vec!['u', '2'],
            NumpyType::I4 => vec!['i', '4'],
            NumpyType::U4 => vec!['u', '4'],
            NumpyType::I8 => vec!['i', '8'],
            NumpyType::U8 => vec!['u', '8'],
            NumpyType::F4 => vec!['f', '4'],
            NumpyType::F8 => vec!['f', '8'],
            NumpyType::C8 => vec!['c', '8'],
            NumpyType::C16 => vec!['c', '1', '6'],
            NumpyType::Text(n) => coded('U', n),
            NumpyType::Bytes(n) => coded('S', n),
            NumpyType::Object => vec!['O'],
        };
        assert(c@ =~= type_code(self));
        string_of(&c)
    }
}

// Types and shapes ---------------------------------------------------------

/// The type that a numeric or logical letter is read into without scaling.
/// Letters of strings and bits have no such type.
pub open spec fn plain_type(l: Letter) -> NumpyType {
    match l {
        Letter::L => NumpyType::Bool,
        Letter::B => NumpyType::U1,
        Letter::I => NumpyType::I2,
        Letter::J => NumpyType::I4,
        Letter::K => NumpyType::I8,
        Letter::E => NumpyType::F4,
        Letter::D => NumpyType::F8,
        Letter::C => NumpyType::C8,
        Letter::M => NumpyType::C16,
        Letter::A => NumpyType::Bytes(1),
        Letter::X => NumpyType::Bool,
    }
}

/// The type that an element is read into under a kind of scaling.
pub open spec fn scaled_type(l: Letter, kind: ScalingKind) -> NumpyType {
    match kind {
        ScalingKind::Unscaled => plain_type(l),
        ScalingKind::UnsignedTrick => match l {
            Letter::B => NumpyType::I1,
            Letter::I => NumpyType::U2,
            Letter::J => NumpyType::U4,
            _ => NumpyType::U8,
        },
        ScalingKind::General => NumpyType::F8,
    }
}

/// The type that an element is read into under a kind of scaling.
pub fn scaled_output_dtype(l: Letter, kind: ScalingKind) -> (r: NumpyType)
    ensures
        r == scaled_type(l, kind),
{
    match kind {
        ScalingKind::Unscaled => match l {
            Letter::L => NumpyType::Bool,
            Letter::B => NumpyType::U1,
            Letter::I => NumpyType::I2,
            Letter::J => NumpyType::I4,
            Letter::K => NumpyType::I8,
            Letter::E => NumpyType::F4,
            Letter::D => NumpyType::F8,
            Letter::C => NumpyType::C8,
            Letter::M => NumpyType::C16,
            Letter::A => NumpyType::Bytes(1),
            Letter::X => NumpyType::Bool,
        },
        ScalingKind::UnsignedTrick => match l {
            Letter::B => NumpyType::I1,
            Letter::I => NumpyType::U2,
            Letter::J => NumpyType::U4,
            _ => NumpyType::U8,
        },
        ScalingKind::General => NumpyType::F8,
    }
}

/// The shape of a cell, the slowest axis first. The first dimension of strings
/// is their length and no axis. One value without dimensions has no axis.
pub open spec fn cell_shape(c: ColumnView) -> Seq<usize> {
    if c.var_kind is Some {
        Seq::empty()
    } else {
        match c.tdim {
            Some(d) => if c.letter is A {
                d.drop_first().reverse()
            } else {
                d.reverse()
            },
            None => if c.letter is A || c.repeat <= 1 {
                Seq::empty()
            } else {
                seq![c.repeat]
            },
        }
    }
}

/// How a column is scaled on reading: not at all unless asked.
pub open spec fn read_scaling(c: ColumnView, scale: bool) -> Option<ScalingKind> {
    if scale {
        scaling(c.letter, c.tscal, c.tzero)
    } else {
        Some(ScalingKind::Unscaled)
    }
}

/// The type that a column is read into; `None` where complex numbers would be
/// scaled.
pub open spec fn field_type(c: ColumnView, scale: bool) -> Option<NumpyType> {
    if c.var_kind is Some {
        Some(NumpyType::Object)
    } else if c.letter is X {
        Some(NumpyType::Bool)
    } else if c.letter is A {
        Some(
            NumpyType::Text(
                match c.tdim {
                    Some(d) => d[0],
                    None => c.repeat,
                },
            ),
        )
    } else {
        match read_scaling(c, scale) {
            None => None,
            Some(kind) => Some(scaled_type(c.letter, kind)),
        }
    }
}

/// The dimensions from `from` on, in reverse.
fn reversed_from(d: &Vec<usize>, from: usize) -> (r: Vec<usize>)
    requires
        from <= d@.len(),
    ensures
        r@ == d@.skip(from as int).reverse(),
{
    let n: usize = d.len();
    let mut r: Vec<usize> = Vec::new();
    let mut i: usize = n;
    let ghost want = d@.skip(from as int).reverse();
    while i > from
        invariant
            from <= i <= n == d@.len(),
            want == d@.skip(from as int).reverse(),
            r@ == want.take(n - i),
        decreases i,
    {
        r.push(d[i - 1]);
        i = i - 1;
        assert(r@ =~= want.take(n - i));
    }
    assert(r@ =~= want);
    r
}

/// The shape of a cell, the slowest axis first.
pub fn column_expected_shape(col: &Column) -> (r: Vec<usize>)
    requires
        dims_present(col@),
    ensures
        r@ == cell_shape(col@),
{
    if col.var_kind.is_some() {
        return Vec::new();
    }
    match &col.tdim {
        Some(d) => {
            assert(col@.tdim == Some(d@));
            match col.letter {
                Letter::A => {
                    assert(d@.skip(1) =~= d@.drop_first());
                    reversed_from(d, 1)
                },
                _ => {
                    assert(d@.skip(0) =~= d@);
                    reversed_from(d, 0)
                },
            }
        },
        None => match col.letter {
            Letter::A => Vec::new(),
            _ => if col.repeat > 1 {
                let r: Vec<usize> = vec![col.repeat];
                assert(r@ =~= seq![col.repeat]);
                r
            } else {
                Vec::new()
            },
        },
    }
}

/// The bytes of one string of a character column.
pub fn string_length(col: &Column) -> (r: usize)
    requires
        dims_present(col@),
    ensures
        r == crate::cells::string_len(col@),
{
    match &col.tdim {
        Some(d) => {
            assert(col@.tdim == Some(d@));
            d[0]
        },
        None => col.repeat,
    }
}

/// The type and the shape that a column is read into; `None` where complex
/// numbers would be scaled.
pub fn field_dtype_and_shape(col: &Column, scale: bool) -> (r: Option<(NumpyType, Vec<usize>)>)
    requires
        column_ok(col@),
    ensures
        match r {
            Some((t, shape)) => field_type(col@, scale) == Some(t) && shape@ == cell_shape(col@),
            None => field_type(col@, scale) is None,
        },
{
    let shape: Vec<usize> = column_expected_shape(col);
    if col.var_kind.is_some() {
        return Some((NumpyType::Object, shape));
    }
    match col.letter {
        Letter::X => Some((NumpyType::Bool, shape)),
        Letter::A => Some((NumpyType::Text(string_length(col)), shape)),
        _ => {
            let kind: Option<ScalingKind> = if scale {
                scaling_kind(col)
            } else {
                Some(ScalingKind::Unscaled)
            };
            match kind {
                None => None,
                Some(k) => Some((scaled_output_dtype(col.letter, k), shape)),
            }
        },
    }
}

// Names --------------------------------------------------------------------

/// The key by which a requested name is looked up: without white space at its
/// ends, and without regard to the case of ASCII letters.
pub open spec fn request_key(name: Seq<char>) -> Seq<char> {
    ascii_upper_text(trimmed(name))
}

/// The key of a requested name.
pub fn request_key_of(name: &str) -> (r: Vec<char>)
    ensures
        r@ == request_key(name@),
{
    let c: Vec<char> = chars_of(name);
    let t: Vec<char> = trim(&c);
    to_ascii_upper(&t)
}

/// The first column whose name has a key.
pub open spec fn column_with_key(cols: Seq<ColumnView>, key: Seq<char>) -> Option<int>
    decreases cols.len(),
{
    if cols.len() == 0 {
        None
    } else {
        match column_with_key(cols.drop_last(), key) {
            Some(i) => Some(i),
            None => if ascii_upper_text(cols.last().name) == key {
                Some(cols.len() - 1)
            } else {
                None
            },
        }
    }
}

/// The column that is found has the key, and none before it has.
pub proof fn lemma_column_with_key(cols: Seq<ColumnView>, key: Seq<char>)
    ensures
        column_with_key(cols, key) matches Some(i) ==> 0 <= i < cols.len() && ascii_upper_text(
            cols[i].name,
        ) == key && forall|j: int| 0 <= j < i ==> ascii_upper_text((#[trigger] cols[j]).name) != key,
        column_with_key(cols, key) is None ==> forall|j: int|
            0 <= j < cols.len() ==> ascii_upper_text((#[trigger] cols[j]).name) != key,
    decreases cols.len(),
{
    if cols.len() > 0 {
        let t = cols.drop_last();
        lemma_column_with_key(t, key);
        assert(forall|j: int| 0 <= j < t.len() ==> cols[j] == t[j]);
    }
}

/// The first column whose name has a key.
pub fn find_key(cols: &[Column], key: &[char]) -> (r: Option<usize>)
    ensures
        match r {
            Some(i) => column_with_key(views(cols@), key@) == Some(i as int) && i < cols@.len(),
            None => column_with_key(views(cols@), key@) is None,
        },
{
    let n: usize = cols.len();
    let mut i: usize = 0;
    while i < n
        invariant
            i <= n == cols@.len(),
            forall|j: int| 0 <= j < i ==> ascii_upper_text((#[trigger] views(cols@)[j]).name) != key@,
        decreases n - i,
    {
        let c: Vec<char> = chars_of(cols[i].name.as_str());
        let u: Vec<char> = to_ascii_upper(&c);
        if same_chars(&u, key) {
            proof {
                lemma_column_with_key(views(cols@), key@);
                assert(ascii_upper_text(views(cols@)[i as int].name) == key@);
            }
            return Some(i);
        }
        assert(ascii_upper_text(views(cols@)[i as int].name) != key@);
        i = i + 1;
    }
    proof {
        lemma_column_with_key(views(cols@), key@);
    }
    None
}

/// Whether an earlier name of the request has the same key as the last one.
pub open spec fn repeats(names: Seq<Seq<char>>) -> bool {
    exists|j: int|
        0 <= j < names.len() - 1 && request_key(#[trigger] names[j]) == request_key(names.last())
}

/// The columns that the names of a request find, in their order, or the first
/// name that repeats an earlier one or finds none.
pub open spec fn columns_named(cols: Seq<ColumnView>, names: Seq<Seq<char>>) -> Result<
    Seq<int>,
    ColumnError,
>
    decreases names.len(),
{
    if names.len() == 0 {
        Ok(Seq::empty())
    } else {
        let at = (names.len() - 1) as usize;
        match columns_named(cols, names.drop_last()) {
            Err(e) => Err(e),
            Ok(s) => if repeats(names) {
                Err(ColumnError::DuplicateName { at })
            } else {
                match column_with_key(cols, request_key(names.last())) {
                    Some(i) => Ok(s.push(i)),
                    None => Err(ColumnError::UnknownName { at }),
                }
            },
        }
    }
}

/// The columns of a request: at least one, none of them twice.
pub open spec fn requested_columns(cols: Seq<ColumnView>, names: Seq<Seq<char>>) -> Result<
    Seq<int>,
    ColumnError,
> {
    if names.len() == 0 {
        Err(ColumnError::EmptyRequest)
    } else {
        columns_named(cols, names)
    }
}

proof fn lemma_named_prefix(cols: Seq<ColumnView>, names: Seq<Seq<char>>, k: int)
    requires
        0 <= k <= names.len(),
        columns_named(cols, names.take(k)) is Err,
    ensures
        columns_named(cols, names) == columns_named(cols, names.take(k)),
    decreases names.len(),
{
    if k < names.len() {
        assert(names.drop_last().take(k) =~= names.take(k));
        lemma_named_prefix(cols, names.drop_last(), k);
    } else {
        assert(names.take(k) =~= names);
    }
}

/// Every name of a request that is met finds a column of the table.
pub proof fn lemma_columns_named(cols: Seq<ColumnView>, names: Seq<Seq<char>>)
    ensures
        columns_named(cols, names) matches Ok(s) ==> {
            &&& s.len() == names.len()
            &&& forall|i: int|
                0 <= i < s.len() ==> 0 <= (#[trigger] s[i]) < cols.len() && column_with_key(
                    cols,
                    request_key(names[i]),
                ) == Some(s[i])
        },
    decreases names.len(),
{
    if names.len() > 0 {
        lemma_columns_named(cols, names.drop_last());
        lemma_column_with_key(cols, request_key(names.last()));
        assert(forall|i: int| 0 <= i < names.len() - 1 ==> names.drop_last()[i] == names[i]);
    }
}

/// Names of a request that differ only in the case of ASCII letters or in the
/// white space at their ends find the same column.
pub proof fn law_lookup_ignores_case(cols: Seq<ColumnView>, a: Seq<char>, b: Seq<char>)
    requires
        ascii_upper_text(trimmed(a)) == ascii_upper_text(trimmed(b)),
    ensures
        column_with_key(cols, request_key(a)) == column_with_key(cols, request_key(b)),
{
}

/// The places of the requested columns.
pub fn resolve_column_places(cols: &[Column], names: &[String]) -> (r: Result<
    Vec<usize>,
    ColumnError,
>)
    ensures
        match r {
            Ok(v) => requested_columns(views(cols@), texts(names@)) == Ok::<Seq<int>, ColumnError>(
                v@.map_values(|i: usize| i as int),
            ) && forall|i: int| 0 <= i < v@.len() ==> v@[i] < cols@.len(),
            Err(e) => requested_columns(views(cols@), texts(names@)) == Err::<
                Seq<int>,
                ColumnError,
            >(e),
        },
{
    let n: usize = names.len();
    if n == 0 {
        return Err(ColumnError::EmptyRequest);
    }
    let ghost cv = views(cols@);
    let ghost nt = texts(names@);
    let mut keys: Vec<Vec<char>> = Vec::new();
    let mut out: Vec<usize> = Vec::new();
    let mut i: usize = 0;
    assert(nt.take(0) =~= Seq::empty());
    assert(out@.map_values(|k: usize| k as int) =~= Seq::empty());
    while i < n
        invariant
            0 < n,
            i <= n == names@.len(),
            cv == views(cols@),
            nt == texts(names@),
            keys@.len() == i,
            forall|k: int| 0 <= k < i ==> (#[trigger] keys@[k])@ == request_key(nt[k]),
            columns_named(cv, nt.take(i as int)) == Ok::<Seq<int>, ColumnError>(
                out@.map_values(|k: usize| k as int),
            ),
            forall|k: int| 0 <= k < out@.len() ==> out@[k] < cols@.len(),
        decreases n - i,
    {
        let key: Vec<char> = request_key_of(names[i].as_str());
        let ghost part = nt.take(i + 1);
        proof {
            assert(part.drop_last() =~= nt.take(i as int));
            assert(part.last() == nt[i as int]);
        }
        let mut j: usize = 0;
        while j < i
            invariant
                j <= i < n == names@.len() == nt.len(),
                keys@.len() == i,
                0 < n,
                part == nt.take(i + 1),
                cv == views(cols@),
                nt == texts(names@),
                key@ == request_key(nt[i as int]),
                columns_named(cv, part.drop_last()) is Ok,
                forall|k: int| 0 <= k < i ==> (#[trigger] keys@[k])@ == request_key(nt[k]),
                forall|k: int| 0 <= k < j ==> request_key(#[trigger] nt[k]) != key@,
            decreases i - j,
        {
            if same_chars(&keys[j], &key) {
                proof {
                    assert(part[j as int] == nt[j as int]);
                    assert(repeats(part));
                    lemma_named_prefix(cv, nt, i + 1);
                }
                return Err(ColumnError::DuplicateName { at: i });
            }
            j = j + 1;
        }
        proof {
            assert(!repeats(part)) by {
                assert(forall|k: int| 0 <= k < i ==> part[k] == nt[k]);
            }
        }
        match find_key(cols, &key) {
            None => {
                proof {
                    lemma_named_prefix(cv, nt, i + 1);
                }
                return Err(ColumnError::UnknownName { at: i });
            },
            Some(k) => {
                let ghost before = out@.map_values(|k: usize| k as int);
                out.push(k);
                assert(out@.map_values(|k: usize| k as int) =~= before.push(k as int));
            },
        }
        keys.push(key);
        i = i + 1;
    }
    assert(nt.take(n as int) =~= nt);
    Ok(out)
}

/// The columns at the given places.
pub open spec fn chosen(cols: Seq<ColumnView>, places: Seq<int>) -> Seq<ColumnView> {
    Seq::new(places.len(), |i: int| cols[places[i]])
}

/// Copies of all columns.
pub fn copy_columns(cols: &[Column]) -> (r: Vec<Column>)
    ensures
        views(r@) == views(cols@),
{
    let n: usize = cols.len();
    let mut r: Vec<Column> = Vec::new();
    let mut i: usize = 0;
    while i < n
        invariant
            i <= n == cols@.len(),
            views(r@) == views(cols@).take(i as int),
        decreases n - i,
    {
        let c: Column = cols[i].duplicate();
        let ghost before = views(r@);
        r.push(c);
        assert(views(r@) =~= before.push(c@));
        i = i + 1;
        assert(views(r@) =~= views(cols@).take(i as int));
    }
    assert(views(r@) =~= views(cols@));
    r
}

/// Copies of the requested columns, in the order of the request.
pub fn resolve_columns(cols: &[Column], names: &[String]) -> (r: Result<Vec<Column>, ColumnError>)
    ensures
        match r {
            Ok(v) => requested_columns(views(cols@), texts(names@)) matches Ok(places)
                && views(v@) == chosen(views(cols@), places),
            Err(e) => requested_columns(views(cols@), texts(names@)) == Err::<
                Seq<int>,
                ColumnError,
            >(e),
        },
{
    let places: Vec<usize> = match resolve_column_places(cols, names) {
        Ok(p) => p,
        Err(e) => {
            return Err(e);
        },
    };
    let ghost pl = places@.map_values(|i: usize| i as int);
    let n: usize = places.len();
    let mut r: Vec<Column> = Vec::new();
    let mut i: usize = 0;
    while i < n
        invariant
            i <= n == places@.len(),
            pl == places@.map_values(|i: usize| i as int),
            forall|k: int| 0 <= k < places@.len() ==> places@[k] < cols@.len(),
            views(r@) == chosen(views(cols@), pl).take(i as int),
        decreases n - i,
    {
        let c: Column = cols[places[i]].duplicate();
        let ghost before = views(r@);
        r.push(c);
        assert(views(r@) =~= before.push(c@));
        i = i + 1;
        assert(views(r@) =~= chosen(views(cols@), pl).take(i as int));
    }
    assert(views(r@) =~= chosen(views(cols@), pl));
    Ok(r)
}

} // verus!
