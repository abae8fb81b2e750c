//! What columns are made of fields and arrays, what a header must say, and what
//! is planned for them.

use vstd::prelude::*;

use crate::assign::{
    RecordInfo, ValueInfo, cell_place, cell_type, first_ungiven, heap_column_error,
    one_column_written, subset_written,
};
use crate::bytes::ByteOrder;
use crate::cells::cell_value;
use crate::codes::{bytes_are, heap_kind, kind_code, law_bytes_of_elements, law_inner_codes};
use crate::columns::{ColumnView, Descriptor, Letter, ScalingKind, letter_sign, opt_text, product};
use crate::create::{
    BitColumns, Field, InnerTypes, WriteColumnView, column_for, columns_for, field_names,
    field_tdim, first_stray, fixed_column, joined, scalar_class, table_for, tdim_text,
};
use crate::edit::{
    column_named, descriptor_form, law_own_dims, lemma_fixed_column, most_elements, name_uppers,
    new_column, object_column, synth_column,
};
use crate::encode::{WriteTransform, transform_for};
use crate::error::{CellError, ColumnError, DtypeError, HeaderError, InputError, TransformError};
use crate::fields::{
    NumpyType, chosen, column_with_key, columns_named, field_type, lemma_columns_named,
    request_key,
};
use crate::header::{
    descriptor_sign, keywords_of, law_descriptor_tform_round_trip, law_fixed_column_reads_back,
    law_tdim_round_trip, lemma_before_letter, lemma_trimmed, tform_text,
};
use crate::heapwrite::{MainColumn, main_sources};
use crate::input::{ArrayInfo, array_input};
use crate::keywords::{
    KeywordsView, TableKeywords, column_from, columns_from, keyword_views, lemma_column_ok,
    lemma_columns_from, row_end, table_columns, tdim_dims, tform_pieces,
};
use crate::plans::{BitHint, bit_hints};
use crate::read::{plan_columns, plan_type, plan_value};
use crate::selected::{law_first_text, law_index, names_place};
use crate::text::{decimal, first_text, law_decimal_parses, texts, uppercase};
use crate::types::{
    is_other_sign, is_plain, law_read_type, lemma_small_decimals, natural, type_kind, type_size,
};
use crate::values::string_size;
use crate::vla::{VarInput, VlaCellPlan, offset_at, rows_error, var_count};

verus! {

// New tables ---------------------------------------------------------------

proof fn lemma_columns_for_each(
    f: Seq<Field>,
    uppers: Seq<Seq<char>>,
    inner: Option<InnerTypes>,
    bits: Option<BitColumns>,
    descriptor: Descriptor,
    n: nat,
)
    ensures
        match columns_for(f, uppers, inner, bits, descriptor, n) {
            Ok(s) => s.len() == n && forall|i: int|
                0 <= i < n ==> column_for(f[i], uppers[i], inner, bits, descriptor) == Ok::<
                    WriteColumnView,
                    DtypeError,
                >(#[trigger] s[i]),
            Err(_) => exists|i: int|
                0 <= i < n && column_for(#[trigger] f[i], uppers[i], inner, bits, descriptor)
                    is Err,
        },
    decreases n,
{
    if n > 0 {
        lemma_columns_for_each(f, uppers, inner, bits, descriptor, (n - 1) as nat);
        match columns_for(f, uppers, inner, bits, descriptor, (n - 1) as nat) {
            Err(_) => {
                let i = choose|i: int|
                    0 <= i < n - 1 && column_for(
                        #[trigger] f[i],
                        uppers[i],
                        inner,
                        bits,
                        descriptor,
                    ) is Err;
                assert(f[i] == f[i]);
            },
            Ok(s) => {
                assert(f[n - 1] == f[n - 1]);
            },
        }
    }
}

proof fn lemma_no_stray(keys: Seq<Seq<char>>, names: Seq<Seq<char>>)
    ensures
        first_stray(keys, names) is None <==> forall|i: int|
            0 <= i < keys.len() ==> names.contains(#[trigger] keys[i]),
    decreases keys.len(),
{
    if keys.len() > 0 {
        let p = keys.drop_last();
        lemma_no_stray(p, names);
        law_first_text(names, keys.last());
        assert(forall|i: int| 0 <= i < p.len() ==> p[i] == keys[i]);
        assert(keys[keys.len() - 1] == keys.last());
        if first_stray(keys, names) is None {
            let j = first_text(names, keys.last())->0;
            assert(names[j] == keys.last());
        }
        if forall|i: int| 0 <= i < keys.len() ==> names.contains(#[trigger] keys[i]) {
            assert forall|i: int| 0 <= i < p.len() implies names.contains(#[trigger] p[i]) by {
                assert(names.contains(keys[i]));
            }
            assert(names.contains(keys[keys.len() - 1]));
        }
    }
}

/// A new table has a column for each field, in their order. It is refused where
/// there are no fields, where a field becomes no column, and where a type or bits
/// are said of a name that no field has.
pub proof fn law_table_made(
    fields: Option<Vec<Field>>,
    uppers: Seq<Seq<char>>,
    inner: Option<InnerTypes>,
    bits: Option<BitColumns>,
    descriptor: Descriptor,
)
    ensures
        ({
            let known = fields is Some && (inner matches Some(t) ==> forall|i: int|
                0 <= i < t.names@.len() ==> field_names(fields->0@).contains(
                    (#[trigger] t.names@[i])@,
                )) && (bits matches Some(BitColumns::Names(n)) ==> forall|i: int|
                0 <= i < n@.len() ==> uppers.contains((#[trigger] n@[i])@));
            match table_for(fields, uppers, inner, bits, descriptor) {
                Ok(cols) => fields is Some && fields->0@.len() > 0 && known && cols.len()
                    == fields->0@.len() && forall|i: int|
                    0 <= i < cols.len() ==> column_for(
                        fields->0@[i],
                        uppers[i],
                        inner,
                        bits,
                        descriptor,
                    ) == Ok::<WriteColumnView, DtypeError>(#[trigger] cols[i]),
                Err(_) => fields is None || fields->0@.len() == 0 || !known || exists|i: int|
                    0 <= i < fields->0@.len() && column_for(
                        #[trigger] fields->0@[i],
                        uppers[i],
                        inner,
                        bits,
                        descriptor,
                    ) is Err,
            }
        }),
{
    if let Some(f) = fields {
        lemma_columns_for_each(f@, uppers, inner, bits, descriptor, f@.len());
        if let Some(t) = inner {
            lemma_no_stray(texts(t.names@), field_names(f@));
            assert forall|i: int| 0 <= i < t.names@.len() implies texts(t.names@)[i] == (
            #[trigger] t.names@[i])@ by {}
            if first_stray(texts(t.names@), field_names(f@)) is None {
                assert forall|i: int| 0 <= i < t.names@.len() implies field_names(f@).contains(
                    (#[trigger] t.names@[i])@,
                ) by {
                    assert(field_names(f@).contains(texts(t.names@)[i]));
                }
            } else if forall|i: int|
                0 <= i < t.names@.len() ==> field_names(f@).contains((#[trigger] t.names@[i])@) {
                assert forall|i: int| 0 <= i < texts(t.names@).len() implies field_names(
                    f@,
                ).contains(#[trigger] texts(t.names@)[i]) by {
                    assert(field_names(f@).contains(t.names@[i]@));
                }
            }
        }
        if let Some(BitColumns::Names(n)) = bits {
            lemma_no_stray(texts(n@), uppers);
            if first_stray(texts(n@), uppers) is None {
                assert forall|i: int| 0 <= i < n@.len() implies uppers.contains(
                    (#[trigger] n@[i])@,
                ) by {
                    assert(texts(n@)[i] == n@[i]@);
                    assert(uppers.contains(texts(n@)[i]));
                }
            } else if forall|i: int| 0 <= i < n@.len() ==> uppers.contains((#[trigger] n@[i])@) {
                assert forall|i: int| 0 <= i < texts(n@).len() implies uppers.contains(
                    #[trigger] texts(n@)[i],
                ) by {
                    assert(uppers.contains(n@[i]@));
                }
            }
        }
    }
}

/// A field of fixed-width elements becomes the column of an array of them, as bits
/// only where its name is asked for or, of truth values, where all are.
pub proof fn law_field_column(
    f: Field,
    upper: Seq<char>,
    inner: Option<InnerTypes>,
    bits: Option<BitColumns>,
    descriptor: Descriptor,
)
    requires
        f.kind != 'O',
    ensures
        column_for(f, upper, inner, bits, descriptor) == fixed_column(
            f.name@,
            f.kind,
            f.itemsize,
            f.shape@,
            opt_text(f.unit),
            match bits {
                None => false,
                Some(BitColumns::All) => f.kind == 'b' && f.itemsize == 1,
                Some(BitColumns::Names(names)) => exists|j: int|
                    0 <= j < names@.len() && (#[trigger] names@[j])@ == upper,
            },
        ),
{
    if let Some(BitColumns::Names(list)) = bits {
        let s = texts(list@);
        law_first_text(s, upper);
        if first_text(s, upper) is Some {
            let j = first_text(s, upper)->0;
            assert(s[j] == list@[j]@);
        } else {
            assert forall|j: int| 0 <= j < list@.len() implies (#[trigger] list@[j])@ != upper by {
                assert(s[j] == list@[j]@);
                assert(s.contains(s[j]));
            }
        }
    }
}

/// The text of a TDIM is the dimensions in decimal in round brackets, with commas
/// between them.
pub proof fn law_tdim_text(d: Seq<usize>, x: usize)
    ensures
        tdim_text(seq![x]) == seq!['('] + decimal(x as nat) + seq![')'],
        d.len() > 0 ==> tdim_text(d.push(x)) == tdim_text(d).drop_last() + seq![','] + decimal(
            x as nat,
        ) + seq![')'],
{
    assert(tdim_text(seq![x]) =~= seq!['('] + decimal(x as nat) + seq![')']);
    if d.len() > 0 {
        let e = d.push(x);
        assert(e.drop_last() =~= d);
        assert(joined(e) == joined(d).push(',') + decimal(x as nat));
        assert(tdim_text(e) =~= tdim_text(d).drop_last() + seq![','] + decimal(x as nat) + seq![
            ')',
        ]);
    }
}

// Inserted columns ---------------------------------------------------------

/// Values for a column that is put in are taken as the column takes them once its
/// header has been read.
pub proof fn law_taken_as_header_says(
    name: Seq<char>,
    kind: char,
    size: usize,
    shape: Seq<usize>,
    unit: Option<Seq<char>>,
    bits: bool,
    n: u64,
)
    requires
        fixed_column(name, kind, size, shape, unit, bits) is Ok,
        forall|i: int| 0 <= i < shape.len() ==> shape[i] > 0,
    ensures
        ({
            let c = fixed_column(name, kind, size, shape, unit, bits)->Ok_0;
            column_from(keywords_of(c), n, 0) matches Ok(r) && synth_column(c) == Some(r)
        }),
{
    let c = fixed_column(name, kind, size, shape, unit, bits)->Ok_0;
    law_fixed_column_reads_back(name, kind, size, shape, unit, bits, n, 0);
    lemma_fixed_column(name, kind, size, shape, unit, bits);
    let r = column_from(keywords_of(c), n, 0)->Ok_0;
    let class = scalar_class(kind, size, bits)->Ok_0;
    match field_tdim(class.chars, shape) {
        None => {},
        Some(d) => {
            law_own_dims(d);
            assert(tdim_dims(tdim_text(d), n) == Ok::<Seq<usize>, HeaderError>(r.tdim->0));
            assert forall|i: int| 0 <= i < d.len() implies d[i] > 0 by {
                if class.chars is Some {
                    if i > 0 {
                        assert(d[i] == shape.reverse()[i - 1]);
                    }
                } else {
                    assert(d[i] == shape.reverse()[i]);
                }
            }
            law_tdim_round_trip(d, n);
        },
    }
}

/// The column that an array becomes where it is put in is that of its elements,
/// with the axes behind that of the rows as the shape of a cell. A type or a form
/// of cells in the heap may not be said of it.
pub proof fn law_array_inserted(
    name: Seq<char>,
    a: ArrayInfo,
    unit: Option<Seq<char>>,
    bits: bool,
    inner: bool,
    format: bool,
    nrows: usize,
)
    ensures
        new_column(name, a, unit, bits, inner, format, nrows) matches Ok((c, t, size)) ==> !inner
            && !format && a.shape@.len() > 0 && a.shape@[0] == nrows && fixed_column(
            name,
            a.kind,
            a.itemsize,
            a.shape@.skip(1),
            unit,
            bits,
        ) == Ok::<WriteColumnView, DtypeError>(c) && transform_for(
            synth_column(c)->0,
            a.kind,
            a.itemsize,
        ) == Ok::<WriteTransform, TransformError>(t),
        inner || format || a.shape@.len() == 0 ==> new_column(
            name,
            a,
            unit,
            bits,
            inner,
            format,
            nrows,
        ) is Err,
{
    if a.shape@.len() > 0 {
        assert(a.shape@.skip(1) =~= a.shape@.drop_first());
    }
}

/// The form of descriptors is P unless Q is asked for, in either case.
pub proof fn law_descriptor_form(s: Seq<char>)
    ensures
        descriptor_form(None) == Some(Descriptor::P),
        descriptor_form(Some(seq!['P'])) == Some(Descriptor::P),
        descriptor_form(Some(seq!['p'])) == Some(Descriptor::P),
        descriptor_form(Some(seq!['Q'])) == Some(Descriptor::Q),
        descriptor_form(Some(seq!['q'])) == Some(Descriptor::Q),
        s.len() != 1 ==> descriptor_form(Some(s)) is None,
{
    reveal_strlit("P");
    reveal_strlit("p");
    reveal_strlit("Q");
    reveal_strlit("q");
    assert("P"@ =~= seq!['P']);
    assert("p"@ =~= seq!['p']);
    assert("Q"@ =~= seq!['Q']);
    assert("q"@ =~= seq!['q']);
    assert(seq!['P'][0] == 'P' && seq!['p'][0] == 'p' && seq!['Q'][0] == 'Q' && seq!['q'][0]
        == 'q');
}

/// The column that objects become where they are put in: its cells are made of
/// the type that is said, and truth values of bits where these are asked for.
pub proof fn law_objects_inserted(
    name: Seq<char>,
    a: ArrayInfo,
    unit: Option<Seq<char>>,
    format: Option<Seq<char>>,
    bits: bool,
    nrows: usize,
    kind: char,
    size: int,
    long: bool,
    code: Seq<char>,
)
    requires
        a.shape@ == seq![nrows],
        descriptor_form(format) is Some,
        (heap_kind(kind, size) && code == kind_code(kind, size, long)) || (kind == 'b' && size == 1
            && code == seq!['?']),
    ensures
        object_column(name, a, unit, Some(code), format, bits, nrows) matches Ok(c) && c.name
            == name && c.tunit == unit && c.repeat == 1 && c.var_kind == descriptor_form(format)
            && natural(c.letter, kind, size) && (c.letter is X <==> kind == 'b' && bits)
            && c.byte_width == (if c.var_kind == Some(Descriptor::Q) {
            16int
        } else {
            8
        }),
        object_column(name, a, unit, None, format, bits, nrows) is Err,
{
    law_inner_codes(kind, size, long);
}

// Headers ------------------------------------------------------------------

proof fn lemma_columns_by_number(k: Seq<KeywordsView>, n: nat)
    requires
        n <= u64::MAX,
    ensures
        match columns_from(k, n) {
            Ok(cols) => cols.len() == n && n <= k.len() && forall|i: int|
                0 <= i < n ==> column_from(
                    k[i],
                    (i + 1) as u64,
                    (#[trigger] cols[i]).byte_offset,
                ) == Ok::<ColumnView, HeaderError>(cols[i]),
            Err(_) => true,
        },
    decreases n,
{
    if n > 0 {
        lemma_columns_by_number(k, (n - 1) as nat);
        if columns_from(k, n) is Ok {
            let p = columns_from(k, (n - 1) as nat)->Ok_0;
            lemma_column_ok(k[n - 1], n as u64, row_end(p) as usize);
            lemma_columns_from(k, (n - 1) as nat);
        }
    }
}

/// The columns of a table are those that the keywords with their numbers describe,
/// as many as TFIELDS says. A header is refused where it has no TFIELDS or a
/// negative one, or where the columns are not together as wide as NAXIS1 says.
pub proof fn law_columns_by_number(t: TableKeywords, i: int)
    ensures
        table_columns(t) matches Ok(cols) ==> t.tfields matches Some(n) && n == cols.len() && (0
            <= i < cols.len() ==> column_from(
            keyword_views(t.columns@)[i],
            (i + 1) as u64,
            cols[i].byte_offset,
        ) == Ok::<ColumnView, HeaderError>(cols[i])),
        t.tfields is None ==> table_columns(t) == Err::<Seq<ColumnView>, HeaderError>(
            HeaderError::MissingTfields,
        ),
        t.tfields matches Some(n) && n < 0 ==> table_columns(t) == Err::<
            Seq<ColumnView>,
            HeaderError,
        >(HeaderError::NegativeTfields { tfields: t.tfields->0 }),
{
    if let Some(n) = t.tfields {
        if n >= 0 {
            lemma_columns_by_number(keyword_views(t.columns@), n as nat);
        }
    }
}

/// A column without a format is refused, and so is one whose dimensions do not
/// make up its count.
pub proof fn law_columns_refused(k: KeywordsView, column: u64, offset: usize)
    ensures
        k.tform is None ==> column_from(k, column, offset) == Err::<ColumnView, HeaderError>(
            HeaderError::MissingTform { column },
        ),
        column_from(k, column, offset) matches Ok(c) ==> if k.tdim is Some {
            c.tdim is Some && tdim_dims(k.tdim->0, column) == Ok::<Seq<usize>, HeaderError>(
                c.tdim->0,
            ) && product(c.tdim->0) == c.repeat && c.var_kind is None
        } else {
            c.tdim is None
        },
{
}

/// What stands in brackets behind the format of cells in the heap is a hint, and
/// changes nothing.
pub proof fn law_format_hint(l: Letter, kind: Descriptor, hint: Seq<char>, column: u64)
    ensures
        tform_pieces(tform_text(l, 1, Some(kind)) + seq!['('] + hint + seq![')'], column)
            == tform_pieces(tform_text(l, 1, Some(kind)), column),
{
    let k = descriptor_sign(kind);
    let s = letter_sign(l);
    let a = tform_text(l, 1, Some(kind));
    let b = a + seq!['('] + hint + seq![')'];
    law_descriptor_tform_round_trip(l, kind, column);
    lemma_trimmed(b);
    let rest = b.skip(1);
    assert(b =~= seq!['1'] + rest);
    assert(rest[0] == k);
    lemma_before_letter(seq!['1'], rest);
    assert(b.take(1) =~= decimal(1)) by {
        lemma_small_decimals();
    }
    law_decimal_parses(1);
    let t = b.skip(2);
    assert(t =~= seq![s, '('] + hint + seq![')']);
    lemma_trimmed(t);
    let after = t.drop_first();
    assert(after =~= seq!['('] + hint + seq![')']);
    lemma_trimmed(after);
}

// Plans --------------------------------------------------------------------

/// The most elements in a cell are those of a cell that no other has more than.
pub proof fn law_most_elements(plans: Seq<VlaCellPlan>)
    ensures
        forall|i: int|
            0 <= i < plans.len() ==> (#[trigger] plans[i]).nelements <= most_elements(plans),
        plans.len() > 0 ==> exists|i: int|
            0 <= i < plans.len() && (#[trigger] plans[i]).nelements == most_elements(plans),
        plans.len() == 0 ==> most_elements(plans) == 0,
    decreases plans.len(),
{
    if plans.len() > 0 {
        let p = plans.drop_last();
        law_most_elements(p);
        assert(forall|i: int| 0 <= i < p.len() ==> p[i] == plans[i]);
        let last = plans.len() - 1;
        assert(plans[last] == plans.last());
        if plans.last().nelements <= most_elements(p) {
            if p.len() > 0 {
                let i = choose|i: int|
                    0 <= i < p.len() && (#[trigger] p[i]).nelements == most_elements(p);
                assert(plans[i].nelements == most_elements(plans));
            } else {
                assert(plans[last].nelements == most_elements(plans));
            }
        }
    }
}

/// There is a hint for each column of bits in the heap, under its number, and for
/// no other.
pub proof fn law_bit_hints(cols: Seq<ColumnView>, plans: Seq<Vec<VlaCellPlan>>, k: nat)
    requires
        k <= cols.len(),
        cols.len() <= usize::MAX,
    ensures
        ({
            let h = bit_hints(cols, plans, k);
            &&& forall|i: int|
                0 <= i < k && (#[trigger] cols[i]).letter is X && cols[i].var_kind is Some
                    ==> h.contains(
                    BitHint {
                        number: (i + 1) as usize,
                        kind: cols[i].var_kind->0,
                        bits: most_elements(plans[i]@),
                    },
                )
            &&& forall|j: int|
                0 <= j < h.len() ==> 1 <= (#[trigger] h[j]).number <= k && cols[h[j].number
                    - 1].letter is X && cols[h[j].number - 1].var_kind is Some
        }),
    decreases k,
{
    if k > 0 {
        law_bit_hints(cols, plans, (k - 1) as nat);
        let p = bit_hints(cols, plans, (k - 1) as nat);
        let h = bit_hints(cols, plans, k);
        assert forall|i: int|
            0 <= i < k && (#[trigger] cols[i]).letter is X && cols[i].var_kind is Some implies
            h.contains(
            BitHint {
                number: (i + 1) as usize,
                kind: cols[i].var_kind->0,
                bits: most_elements(plans[i]@),
            },
        ) by {
            let b = BitHint {
                number: (i + 1) as usize,
                kind: cols[i].var_kind->0,
                bits: most_elements(plans[i]@),
            };
            if i < k - 1 {
                assert(p.contains(b));
                let q = choose|q: int| 0 <= q < p.len() && p[q] == b;
                assert(h[q] == b);
            } else {
                assert(h[h.len() - 1] == b);
            }
        }
        assert forall|j: int| 0 <= j < h.len() implies 1 <= (#[trigger] h[j]).number <= k
            && cols[h[j].number - 1].letter is X && cols[h[j].number - 1].var_kind is Some by {
            if j < p.len() {
                assert(h[j] == p[j]);
            }
        }
    }
}

/// The columns that are read: all of them, or those that are asked for, in the
/// order of the request.
pub proof fn law_columns_read(all: Seq<ColumnView>, names: Option<Vec<String>>, k: int)
    ensures
        names is None ==> plan_columns(all, names) == Ok::<Seq<ColumnView>, ColumnError>(all),
        names matches Some(n) ==> (plan_columns(all, names) matches Ok(cols) ==> cols.len()
            == n@.len() && (0 <= k < cols.len() ==> (column_with_key(all, request_key(n@[k]@))
            matches Some(i) && 0 <= i < all.len() && cols[k] == all[i]))),
{
    if let Some(n) = names {
        if n@.len() > 0 {
            lemma_columns_named(all, texts(n@));
            if columns_named(all, texts(n@)) is Ok && 0 <= k < n@.len() {
                let places = columns_named(all, texts(n@))->Ok_0;
                assert(texts(n@)[k] == n@[k]@);
                assert(0 <= places[k] < all.len());
                assert(chosen(all, places)[k] == all[places[k]]);
            }
        }
    }
}

/// Where raw bytes of strings are asked for, a cell is read as its bytes, as
/// strings of bytes of its length. Nothing else is read in another way on that
/// account.
pub proof fn law_raw_bytes(
    c: ColumnView,
    kind: ScalingKind,
    src: Seq<u8>,
    order: ByteOrder,
    scale: bool,
)
    ensures
        c.letter is A ==> plan_value(c, kind, true, src, order) == Ok::<Seq<u8>, CellError>(src),
        !(c.letter is A) ==> plan_value(c, kind, true, src, order) == cell_value(
            c,
            src,
            kind,
            order,
        ),
        plan_value(c, kind, false, src, order) == cell_value(c, src, kind, order),
        c.var_kind is None ==> plan_type(c, scale, true) == Some(
            NumpyType::Bytes(string_size(c) as usize),
        ),
        plan_type(c, scale, false) == field_type(c, scale),
{
}

/// The cells in the heap follow each other: row by row, and in a row column by
/// column, each as long as its elements, from the start on.
pub proof fn law_heap_offsets(
    cols: Seq<ColumnView>,
    cells: Seq<Vec<VarInput>>,
    start: int,
    r: int,
    i: int,
    bytes: int,
)
    requires
        0 <= r,
        0 <= i < cols.len(),
        cols[i].var_kind is Some ==> (var_count(cells[i]@[r], cols[i].letter) matches Ok(n)
            && bytes_are(cols[i].letter, n as int, bytes)),
        cols[i].var_kind is None ==> bytes == 0,
    ensures
        offset_at(cols, cells, start, 0, 0) == start,
        offset_at(cols, cells, start, r, i + 1) == offset_at(cols, cells, start, r, i) + bytes,
        offset_at(cols, cells, start, r + 1, 0) == offset_at(
            cols,
            cells,
            start,
            r,
            cols.len() as int,
        ),
{
    if cols[i].var_kind is Some {
        let n = var_count(cells[i]@[r], cols[i].letter)->Ok_0;
        law_bytes_of_elements(cols[i].letter, n as nat, bytes);
    }
}

/// In a table with cells in the heap, the values of each other column come from
/// what is given for it.
pub proof fn law_main_sources(arrays: Seq<ArrayInfo>, cols: Seq<ColumnView>, nrows: usize, k: nat)
    requires
        k <= cols.len(),
        cols.len() <= usize::MAX,
    ensures
        match main_sources(arrays, cols, nrows, k) {
            Ok(s) => s.len() == k && forall|i: int|
                0 <= i < k ==> match #[trigger] s[i] {
                    MainColumn::Heap => cols[i].var_kind is Some,
                    MainColumn::Fixed { transform, meta } => cols[i].var_kind is None && meta.buffer
                        == i && meta.offset == 0 && meta.stride == meta.size && array_input(
                        arrays[i],
                        cols[i],
                        nrows,
                    ) == Ok::<(WriteTransform, usize), InputError>((transform, meta.size)),
                },
            Err(_) => exists|i: int|
                0 <= i < k && (#[trigger] cols[i]).var_kind is None && array_input(
                    arrays[i],
                    cols[i],
                    nrows,
                ) is Err,
        },
    decreases k,
{
    if k > 0 {
        law_main_sources(arrays, cols, nrows, (k - 1) as nat);
        match main_sources(arrays, cols, nrows, (k - 1) as nat) {
            Err(_) => {
                let i = choose|i: int|
                    0 <= i < k - 1 && (#[trigger] cols[i]).var_kind is None && array_input(
                        arrays[i],
                        cols[i],
                        nrows,
                    ) is Err;
                assert(cols[i].var_kind is None);
            },
            Ok(s) => {
                assert(cols[k - 1].var_kind is None || cols[k - 1].var_kind is Some);
            },
        }
    }
}

// Assigned cells -----------------------------------------------------------

/// A cell is the one in the row that its index names and in the first column with
/// its name.
pub proof fn law_cell_assigned(cols: Seq<ColumnView>, i: i64, nrows: usize, name: Seq<char>)
    ensures
        match cell_place(i, nrows, column_named(cols, name)) {
            Ok((r, c)) => names_place(i, nrows as int, r) && 0 <= c < cols.len() && uppercase(
                cols[c].name,
            ) == uppercase(name) && forall|j: int|
                0 <= j < c ==> uppercase((#[trigger] cols[j]).name) != uppercase(name),
            Err(_) => i >= nrows || i < -nrows || forall|j: int|
                0 <= j < cols.len() ==> uppercase((#[trigger] cols[j]).name) != uppercase(name),
        },
{
    law_index(i, nrows as int);
    let u = name_uppers(cols);
    law_first_text(u, uppercase(name));
    assert forall|j: int| 0 <= j < cols.len() implies u[j] == uppercase(
        (#[trigger] cols[j]).name,
    ) by {}
    if first_text(u, uppercase(name)) is None {
        assert forall|j: int| 0 <= j < cols.len() implies uppercase((#[trigger] cols[j]).name)
            != uppercase(name) by {
            assert(u.contains(u[j]));
        }
    }
}

/// A value for a cell is turned into the elements that the column takes: unsigned
/// integers where it stores these, and else what is stored.
pub proof fn law_cell_type(c: ColumnView, kind: char, size: int)
    requires
        c.var_kind is None,
        natural(c.letter, kind, size),
    ensures
        cell_type(c) matches Some(t) && type_size(t) == size && type_kind(t) == (if is_other_sign(
            c.letter,
            c.tscal,
            c.tzero,
        ) && !is_plain(c.tscal, c.tzero) {
            if kind == 'u' {
                'i'
            } else {
                'u'
            }
        } else {
            kind
        }),
{
    law_read_type(c, true, kind, size);
    law_read_type(c, false, kind, size);
}

/// Columns are assigned from records with as many rows as the table, and some
/// columns of some rows from as many records as there are rows, or from one
/// record where the rows are one number. Each name must have something given.
pub proof fn law_subset_assigned(
    names: Seq<Seq<char>>,
    fields: Option<Seq<Seq<char>>>,
    count: usize,
    single: bool,
    rec: RecordInfo,
    v: ValueInfo,
)
    ensures
        match subset_written(names, fields, count, single, rec, v) {
            Ok(some) => names.len() > 0 && (some <==> count > 0) && (some ==> (fields matches Some(f)
                && (forall|i: int| 0 <= i < names.len() ==> f.contains(#[trigger] names[i])) && (
            single ==> rec.is_record && rec.structured) && (!single ==> v.is_array && v.len == Some(
                count,
            )))),
            Err(_) => names.len() == 0 || count > 0,
        },
        one_column_written(count, single, v) is Ok <==> count == 0 || single || v.len == Some(
            count,
        ),
        one_column_written(count, single, v) matches Ok(some) ==> (some <==> count > 0),
{
    if let Some(f) = fields {
        lemma_all_given(names, f, names.len());
    }
}

proof fn lemma_all_given(names: Seq<Seq<char>>, fields: Seq<Seq<char>>, k: nat)
    requires
        k <= names.len(),
    ensures
        first_ungiven(names, fields, k) is None ==> forall|i: int|
            0 <= i < k ==> fields.contains(#[trigger] names[i]),
    decreases k,
{
    if k > 0 {
        lemma_all_given(names, fields, (k - 1) as nat);
        law_first_text(fields, names[k - 1]);
        if first_ungiven(names, fields, k) is None {
            let j = first_text(fields, names[k - 1])->0;
            assert(fields[j] == names[k - 1]);
        }
    }
}

/// A column with cells in the heap is assigned an array of objects, one for each
/// row.
pub proof fn law_heap_column_assigned(
    c: ColumnView,
    a: ArrayInfo,
    cells: Seq<Vec<VarInput>>,
    nrows: usize,
    pcount: u64,
)
    ensures
        heap_column_error(c, a, cells, nrows, pcount) is None ==> a.is_array && a.kind == 'O'
            && a.shape@ == seq![nrows],
        a.is_array && a.kind == 'O' && a.shape@ == seq![nrows] && pcount <= usize::MAX ==> (
        heap_column_error(c, a, cells, nrows, pcount) is None <==> rows_error(
            seq![c],
            cells,
            pcount as int,
            nrows as nat,
        ) is None),
{
    if a.shape@.len() == 1 && a.shape@[0] == nrows {
        assert(a.shape@ =~= seq![nrows]);
    }
}

} // verus!
