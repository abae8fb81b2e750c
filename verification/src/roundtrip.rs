//! What is written reads back as it was given.

use vstd::prelude::*;

use crate::bytes::ByteOrder;
use crate::cells::{string_len, unit};
use crate::columns::{ColumnView, column_ok, columns_fill, scaling};
use crate::encode::{
    WriteTransform, encoded, law_bits_round_trip, law_numbers_round_trip, law_strings_round_trip,
    law_truth_round_trip, law_unsigned_round_trip, lemma_transform_width, plain_string,
    source_size, transform_for, wide_text,
};
use crate::error::CellError;
use crate::input::PreparedInput;
use crate::read::{cell_of, plan_value};
use crate::strips::{cell_for, lemma_row_for, row_for};

verus! {

/// Whether truth values are 0 and 1.
pub open spec fn truth_bytes(s: Seq<u8>) -> bool {
    forall|i: int| 0 <= i < s.len() ==> s[i] == 0 || s[i] == 1
}

/// Whether strings of `len` characters are ASCII, end without a space, and have
/// nothing but zeros behind a zero.
pub open spec fn plain_strings(s: Seq<u8>, len: int) -> bool {
    &&& forall|i: int| 0 <= i < s.len() ==> s[i] < 128
    &&& forall|q: int| 0 <= q < s.len() as int / len ==> #[trigger] plain_string(unit(s, len, q))
}

/// Whether a value is one that a column can hold without loss: truth values are
/// 0 and 1, and the characters of strings are plain.
pub open spec fn exact_value(c: ColumnView, t: WriteTransform, src: Seq<u8>) -> bool {
    match t {
        WriteTransform::BoolToLogical { num_bytes } => truth_bytes(src),
        WriteTransform::BitsPackMsb { num_bits } => truth_bytes(src),
        WriteTransform::UnicodeToAscii { num_chars } => exists|s: Seq<u8>|
            s.len() == num_chars && src == #[trigger] wide_text(s) && string_len(c) > 0
                && num_chars as int % string_len(c) as int == 0 && plain_strings(
                s,
                string_len(c) as int,
            ),
        _ => true,
    }
}

/// A value that is written into a column and read from it again, on a
/// little-endian host, is the value that was given. Strings that were given as
/// bytes are read as bytes.
pub proof fn law_write_then_read(c: ColumnView, kind: char, size: usize, src: Seq<u8>)
    requires
        column_ok(c),
        c.var_kind is None,
        transform_for(c, kind, size) is Ok,
        src.len() == source_size(transform_for(c, kind, size)->Ok_0),
        exact_value(c, transform_for(c, kind, size)->Ok_0, src),
    ensures
        ({
            let t = transform_for(c, kind, size)->Ok_0;
            let back = scaling(c.letter, c.tscal, c.tzero);
            &&& encoded(t, src) is Ok
            &&& encoded(t, src)->Ok_0.len() == c.byte_width
            &&& back is Some
            &&& !(back->0 is General)
            &&& plan_value(
                c,
                back->0,
                t is BytesCopy,
                encoded(t, src)->Ok_0,
                ByteOrder::Little,
            ) == Ok::<Seq<u8>, CellError>(src)
        }),
{
    let t = transform_for(c, kind, size)->Ok_0;
    lemma_transform_width(c, kind, size);
    crate::encode::lemma_encoded_len(t, src);
    match t {
        WriteTransform::Identity { elem_w, num_elems } => {
            law_numbers_round_trip(src, elem_w, num_elems);
        },
        WriteTransform::UnsignedXor { elem_w, num_elems } => {
            law_unsigned_round_trip(src, elem_w, num_elems);
            let w = elem_w as int;
            let n = c.repeat as int;
            assert(c.byte_width == n * w);
            crate::bytes::lemma_unit_of(n, 0, w);
            assert(num_elems == c.repeat);
        },
        WriteTransform::BoolToLogical { num_bytes } => {
            law_truth_round_trip(src);
        },
        WriteTransform::BitsPackMsb { num_bits } => {
            law_bits_round_trip(src);
        },
        WriteTransform::BytesCopy { num_bytes } => {
            assert(src.take(src.len() as int) =~= src);
        },
        WriteTransform::UnicodeToAscii { num_chars } => {
            let s = choose|s: Seq<u8>|
                s.len() == num_chars && src == #[trigger] wide_text(s) && string_len(c) > 0
                    && num_chars as int % string_len(c) as int == 0 && plain_strings(
                    s,
                    string_len(c) as int,
                );
            law_strings_round_trip(s, string_len(c));
        },
    }
}

/// The cell of a column in a row that is written is what its value became.
pub proof fn law_written_row_cell(
    p: PreparedInput,
    bufs: Seq<Seq<u8>>,
    cols: Seq<ColumnView>,
    width: int,
    r: int,
    i: int,
)
    requires
        columns_fill(cols, width),
        p.metas@.len() == cols.len(),
        0 <= i < cols.len(),
        forall|k: int|
            0 <= k < cols.len() ==> (#[trigger] cell_for(p, bufs, k, r)) is Ok && cell_for(
                p,
                bufs,
                k,
                r,
            )->Ok_0.len() == cols[k].byte_width,
    ensures
        row_for(p, bufs, r).len() == width,
        cell_of(cols[i], row_for(p, bufs, r)) == cell_for(p, bufs, i, r)->Ok_0,
{
    lemma_row_for(p, bufs, cols, width, r);
    crate::columns::lemma_columns_fill(cols, width);
    let cell = cell_for(p, bufs, i, r)->Ok_0;
    let got = cell_of(cols[i], row_for(p, bufs, r));
    assert(cell_for(p, bufs, i, r) is Ok);
    assert forall|y: int| 0 <= y < cell.len() implies got[y] == cell[y] by {
        assert(row_for(p, bufs, r)[cols[i].byte_offset + y] == cell_for(p, bufs, i, r)->Ok_0[y]);
    }
    assert(got =~= cell);
}

} // verus!
