//! What is written into the heap reads back as it was given.

use vstd::prelude::*;
use vstd::utf8::{
    char_is_scalar, char_u32_cast, encode_scalar, encode_utf8, has_width_1_encoding,
    is_ascii_chars, is_ascii_chars_encode_utf8, leading_byte_width_2, leading_byte_width_3,
    leading_byte_width_4,
};

use crate::bytes::{ByteOrder, law_swap_twice, pow256};
use crate::columns::{ColumnView, Letter, ScalingKind, element_size, swap_width};
use crate::encode::{law_bits_round_trip, law_truth_round_trip};
use crate::error::CellError;
use crate::fields::scaled_type;
use crate::heap::{
    VarView, ascii_text, descriptor_for, descriptor_value, first_non_ascii, half_size, heap_span,
    law_descriptor_round_trip, var_value,
};
use crate::heapwrite::{cell_heap, cells_valid, law_heap_holds_cells, rows_heap};
use crate::roundtrip::truth_bytes;
use crate::vla::{
    VarInput, VlaCellPlan, bytes_at, count_at, lemma_var_bytes, offset_at, plans_hold, text_bytes,
    var_bytes, var_count, var_input_ok,
};

verus! {

/// The bytes of the elements that are given for a cell.
pub open spec fn given_bytes(c: VarInput) -> Seq<u8> {
    match c {
        VarInput::Array { shape, kind, itemsize, contiguous, bytes } => bytes@.take(
            (shape@[0] * itemsize) as int,
        ),
        _ => Seq::empty(),
    }
}

/// What a cell is given as: bytes, a text, or elements.
pub open spec fn given_value(c: VarInput, letter: Letter) -> VarView {
    match c {
        VarInput::Bytes(b) => VarView::Bytes(b@),
        VarInput::Text(s) => VarView::Text(s@),
        _ => VarView::Array {
            dtype: scaled_type(letter, ScalingKind::Unscaled),
            bytes: given_bytes(c),
        },
    }
}

/// Whether a cell is one that the heap can hold without loss: truth values are
/// 0 and 1.
pub open spec fn exact_cell(c: VarInput, letter: Letter) -> bool {
    letter is L || letter is X ==> truth_bytes(given_bytes(c))
}

proof fn lemma_leading_bytes(c: u32)
    ensures
        leading_byte_width_2(c) >= 128,
        leading_byte_width_3(c) >= 128,
        leading_byte_width_4(c) >= 128,
{
    assert((0xC0u8 | ((c >> 6) & 0x1F) as u8) >= 128) by (bit_vector);
    assert((0xE0u8 | ((c >> 12) & 0x0F) as u8) >= 128) by (bit_vector);
    assert((0xF0u8 | ((c >> 18) & 0x7) as u8) >= 128) by (bit_vector);
}

pub proof fn lemma_ascii_bytes(s: Seq<char>)
    requires
        forall|i: int| 0 <= i < encode_utf8(s).len() ==> encode_utf8(s)[i] < 128,
    ensures
        is_ascii_chars(s),
    decreases s.len(),
{
    if s.len() > 0 {
        let c = s[0] as u32;
        char_is_scalar(s[0]);
        char_u32_cast(s[0], c);
        let first = encode_scalar(c);
        let rest = encode_utf8(s.drop_first());
        let all = encode_utf8(s);
        assert(all == first + rest);
        lemma_leading_bytes(c);
        assert(first.len() > 0);
        assert(all[0] == first[0]);
        assert(has_width_1_encoding(c));
        assert forall|i: int| 0 <= i < rest.len() implies rest[i] < 128 by {
            assert(all[first.len() + i] == rest[i]);
        }
        lemma_ascii_bytes(s.drop_first());
        assert forall|i: int| 0 <= i < s.len() implies '\0' <= #[trigger] s[i] <= '\u{7f}' by {
            if i > 0 {
                assert(s.drop_first()[i - 1] == s[i]);
            }
        }
    }
}

proof fn lemma_none_ascii(s: Seq<u8>)
    requires
        first_non_ascii(s) is None,
    ensures
        forall|i: int| 0 <= i < s.len() ==> s[i] < 128,
    decreases s.len(),
{
    if s.len() > 0 {
        lemma_none_ascii(s.drop_last());
        assert forall|i: int| 0 <= i < s.len() implies s[i] < 128 by {
            if i < s.len() - 1 {
                assert(s.drop_last()[i] == s[i]);
            }
        }
    }
}

/// A text of ASCII bytes is what these bytes stand for.
proof fn lemma_text_back(s: Seq<char>)
    requires
        first_non_ascii(text_bytes(s)) is None,
    ensures
        ascii_text(text_bytes(s)) == s,
{
    lemma_none_ascii(text_bytes(s));
    lemma_ascii_bytes(s);
    is_ascii_chars_encode_utf8(s);
    assert forall|i: int| 0 <= i < s.len() implies #[trigger] ascii_text(text_bytes(s))[i]
        == s[i] by {
        assert(s[i] as u8 == text_bytes(s)[i]);
    }
    assert(ascii_text(text_bytes(s)) =~= s);
}

/// A cell that goes into the heap and is read from it again, on a little-endian
/// host and without scaling, is the cell that was given. What was given as
/// bytes is read as bytes.
pub proof fn law_heap_cell_reads_back(c: VarInput, letter: Letter)
    requires
        var_input_ok(c),
        var_count(c, letter) is Ok,
        exact_cell(c, letter),
        var_bytes(c, letter).len() <= usize::MAX,
        given_bytes(c).len() <= usize::MAX,
    ensures
        var_value(
            letter,
            var_bytes(c, letter),
            var_count(c, letter)->Ok_0 as nat,
            c is Bytes,
            ScalingKind::Unscaled,
            ByteOrder::Little,
        ) == Ok::<VarView, CellError>(given_value(c, letter)),
{
    lemma_var_bytes(c, letter);
    match c {
        VarInput::Text(s) => {
            lemma_text_back(s@);
        },
        VarInput::Array { shape, kind, itemsize, contiguous, bytes } => {
            let n = shape@[0] as int;
            let src = given_bytes(c);
            assert(n * itemsize >= 0) by (nonlinear_arith)
                requires
                    n >= 0,
                    itemsize >= 0,
            ;
            assert(src.len() == n * itemsize);
            assert(src.take(src.len() as int) =~= src);
            if n == 0 {
                assert(0 * itemsize == 0) by (nonlinear_arith);
                assert(src =~= Seq::empty());
            } else if letter is X {
                assert(n * itemsize == n) by (nonlinear_arith)
                    requires
                        itemsize == 1,
                ;
                law_bits_round_trip(src);
            } else if letter is L {
                law_truth_round_trip(src);
            } else {
                lemma_whole(letter, n);
                law_swap_twice(src, swap_width(letter) as int);
            }
        },
        _ => {},
    }
}

/// Numbers that are swapped fill the bytes of their elements.
proof fn lemma_whole(letter: Letter, n: int)
    requires
        0 <= n,
        !(letter is X),
    ensures
        swap_width(letter) > 0,
        (n * element_size(letter)->0 as int) % (swap_width(letter) as int) == 0,
{
    let w = swap_width(letter) as int;
    let e = element_size(letter)->0 as int;
    if e == w {
        crate::bytes::lemma_unit_of(n, 0, w);
    } else {
        assert(e == 2 * w);
        assert(n * (2 * w) == (2 * n) * w) by (nonlinear_arith);
        crate::bytes::lemma_unit_of(2 * n, 0, w);
    }
}

/// A cell that is written into the heap behind what it holds is found through
/// its descriptor, and is the cell that was given, on a little-endian host and
/// without scaling, as long as the numbers of the descriptor hold its count and
/// its offset.
pub proof fn law_heap_write_then_read(
    cols: Seq<ColumnView>,
    cells: Seq<Vec<VarInput>>,
    plans: Seq<VlaCellPlan>,
    kept: Seq<u8>,
    n: int,
    i: int,
    r: int,
    base: u64,
)
    requires
        cells_valid(cols, cells, n),
        0 <= i < cols.len(),
        0 <= r < n,
        cols[i].var_kind is Some,
        plans_hold(cols, cells, kept.len() as int, plans, i, n),
        exact_cell(cells[i]@[r], cols[i].letter),
        given_bytes(cells[i]@[r]).len() <= usize::MAX,
        2 * plans[r].nelements < pow256(half_size(cols[i].var_kind->0)),
        2 * plans[r].offset < pow256(half_size(cols[i].var_kind->0)),
        kept.len() + rows_heap(cols, cells, n).len() <= usize::MAX,
        base + kept.len() + rows_heap(cols, cells, n).len() <= u64::MAX,
    ensures
        ({
            let kind = cols[i].var_kind->0;
            let letter = cols[i].letter;
            let heap = kept + rows_heap(cols, cells, n);
            let (count, off) = descriptor_value(
                kind,
                descriptor_for(kind, plans[r].nelements as nat, plans[r].offset as nat),
            );
            &&& 0 <= count <= i64::MAX
            &&& 0 <= off <= i64::MAX
            &&& heap_span(letter, count as i64, off as i64, base) matches Ok((at, len))
                && at - base + len <= heap.len() && var_value(
                letter,
                heap.subrange(at - base, at - base + len),
                count as nat,
                cells[i]@[r] is Bytes,
                ScalingKind::Unscaled,
                ByteOrder::Little,
            ) == Ok::<VarView, CellError>(given_value(cells[i]@[r], letter))
        }),
{
    let kind = cols[i].var_kind->0;
    let letter = cols[i].letter;
    let cell = cells[i]@[r];
    let all = rows_heap(cols, cells, n);
    let heap = kept + all;
    assert(count_at(cols, cells, i, r) is Ok);
    assert(count_at(cols, cells, i, r) == Ok::<usize, crate::error::VarError>(
        plans[r].nelements,
    ));
    crate::bytes::lemma_pow256();
    law_descriptor_round_trip(kind, plans[r].nelements as nat, plans[r].offset as nat);
    law_heap_holds_cells(cols, cells, n, i, r);
    let at = offset_at(cols, cells, 0, r, i);
    let len = bytes_at(cols, cells, i, r);
    assert(cell_heap(cols, cells, i, r) == var_bytes(cell, letter));
    assert(plans[r].offset == kept.len() + at);
    assert(heap.subrange(kept.len() + at, kept.len() + at + len) =~= all.subrange(at, at + len));
    assert(var_input_ok(cell)) by {
        assert(cells[i]@.len() >= n);
    }
    law_heap_cell_reads_back(cell, letter);
}

} // verus!
