//! Descriptors and the cells that they point to in the heap.

use vstd::prelude::*;

use crate::bytes::{
    ByteOrder, be_bytes, be_bytes_of, be_signed, be_signed_of, copy_of, lemma_be_bytes_value,
    lemma_be_signed_small, pow256, unpack_bits, unpacked_bits,
};
use crate::cells::{
    convert_l_cell, convert_unsigned_trick_cell, copy_with_byteswap, flipped_cell, native,
    scaling_fits, truth_values,
};
use crate::columns::{
    Descriptor, Letter, ScalingKind, byteswap_unit, cell_bytes, cell_bytes_of, descriptor_size,
    element_size, swap_width,
};
use crate::error::CellError;
use crate::fields::{NumpyType, scaled_output_dtype, scaled_type};
use crate::rows::{pairs_sorted, sort_pairs};
use crate::text::string_of;

verus! {

// Descriptors --------------------------------------------------------------

/// The bytes of one of the two numbers of a descriptor.
pub open spec fn half_size(kind: Descriptor) -> nat {
    match kind {
        Descriptor::P => 4,
        Descriptor::Q => 8,
    }
}

/// The count and the heap offset that a descriptor holds: two's complement
/// numbers, the most significant byte first.
pub open spec fn descriptor_value(kind: Descriptor, src: Seq<u8>) -> (int, int) {
    let w = half_size(kind) as int;
    (be_signed(src.subrange(0, w)), be_signed(src.subrange(w, 2 * w)))
}

/// Reads the count and the heap offset of a descriptor.
pub fn read_descriptor(kind: Descriptor, src: &[u8]) -> (r: (i64, i64))
    requires
        src@.len() >= descriptor_size(kind),
    ensures
        (r.0 as int, r.1 as int) == descriptor_value(kind, src@),
{
    let w: usize = match kind {
        Descriptor::P => 4,
        Descriptor::Q => 8,
    };
    let n: Vec<u8> = copy_of(src, 0, w);
    let off: Vec<u8> = copy_of(src, w, w);
    assert(n@ =~= src@.subrange(0, w as int));
    assert(off@ =~= src@.subrange(w as int, 2 * w));
    (be_signed_of(&n), be_signed_of(&off))
}

/// The numbers of a descriptor are below half of their range.
pub proof fn lemma_descriptor_range(kind: Descriptor, src: Seq<u8>)
    requires
        src.len() >= descriptor_size(kind),
    ensures
        2 * descriptor_value(kind, src).0 < pow256(half_size(kind)),
        2 * descriptor_value(kind, src).1 < pow256(half_size(kind)),
        descriptor_value(kind, src).0 <= i64::MAX,
        descriptor_value(kind, src).1 <= i64::MAX,
{
    let w = half_size(kind) as int;
    lemma_signed_range(src.subrange(0, w));
    lemma_signed_range(src.subrange(w, 2 * w));
    crate::bytes::lemma_pow256();
}

proof fn lemma_signed_range(half: Seq<u8>)
    requires
        half.len() > 0,
    ensures
        2 * be_signed(half) < pow256(half.len()),
{
    let w = half.len();
    crate::bytes::lemma_be_value_leading(half);
    crate::bytes::lemma_be_value_bound(half);
    let p = pow256((w - 1) as nat) as int;
    assert(pow256(w) == 256 * p);
    if half[0] < 128 {
        let top = half[0] as int;
        assert((top + 1) * p <= 128 * p) by (nonlinear_arith)
            requires
                top < 128,
                p >= 0,
        ;
    }
}

/// The descriptor of `n` elements at a heap offset: the low-order bytes of the
/// two numbers, the most significant byte first.
pub open spec fn descriptor_for(kind: Descriptor, n: nat, off: nat) -> Seq<u8> {
    be_bytes(n, half_size(kind)) + be_bytes(off, half_size(kind))
}

/// A descriptor has the size that is said of it.
pub proof fn lemma_descriptor_len(kind: Descriptor, n: nat, off: nat)
    ensures
        descriptor_for(kind, n, off).len() == descriptor_size(kind),
{
    lemma_be_bytes_value(n, half_size(kind));
    lemma_be_bytes_value(off, half_size(kind));
}

/// Writes a descriptor.
pub fn write_descriptor(kind: Descriptor, nelements: u64, heap_offset: u64) -> (r: Vec<u8>)
    ensures
        r@ == descriptor_for(kind, nelements as nat, heap_offset as nat),
        r@.len() == descriptor_size(kind),
{
    let w: usize = match kind {
        Descriptor::P => 4,
        Descriptor::Q => 8,
    };
    let mut r: Vec<u8> = be_bytes_of(nelements, w);
    let mut off: Vec<u8> = be_bytes_of(heap_offset, w);
    r.append(&mut off);
    proof {
        lemma_descriptor_len(kind, nelements as nat, heap_offset as nat);
    }
    r
}

/// A descriptor gives back the count and the offset that were written, where
/// both are below half of the range of its numbers.
pub proof fn law_descriptor_round_trip(kind: Descriptor, n: nat, off: nat)
    requires
        2 * n < pow256(half_size(kind)),
        2 * off < pow256(half_size(kind)),
    ensures
        descriptor_value(kind, descriptor_for(kind, n, off)) == (n as int, off as int),
{
    let w = half_size(kind);
    let d = descriptor_for(kind, n, off);
    lemma_be_bytes_value(n, w);
    lemma_be_bytes_value(off, w);
    lemma_be_signed_small(n, w);
    lemma_be_signed_small(off, w);
    assert(d.subrange(0, w as int) =~= be_bytes(n, w));
    assert(d.subrange(w as int, 2 * w as int) =~= be_bytes(off, w));
}

// Reading cells ------------------------------------------------------------

/// A descriptor that was met while reading rows: where its cell goes, and what
/// it says.
#[derive(Clone, Copy, PartialEq, Eq, Structural, Debug)]
pub struct VarCell {
    pub output_row: usize,
    pub column: usize,
    pub nelements: i64,
    pub heap_offset: i64,
}

/// The cells with their heap offsets and their places.
pub open spec fn cell_pairs(cells: Seq<VarCell>) -> Seq<(i64, usize)> {
    Seq::new(cells.len(), |i: int| (cells[i].heap_offset, i as usize))
}

/// The order in which the cells are read: by ascending heap offset, and in the
/// order of the list where offsets are equal.
pub fn heap_order(cells: &[VarCell]) -> (r: Vec<usize>)
    ensures
        r@.len() == cells@.len(),
        forall|i: int| 0 <= i < r@.len() ==> r@[i] < cells@.len(),
        ({
            let p = Seq::new(
                r@.len(),
                |i: int| (cells@[r@[i] as int].heap_offset, r@[i]),
            );
            pairs_sorted(p) && p.to_multiset() == cell_pairs(cells@).to_multiset()
        }),
{
    let n: usize = cells.len();
    let mut pairs: Vec<(i64, usize)> = Vec::new();
    let mut i: usize = 0;
    while i < n
        invariant
            i <= n == cells@.len(),
            pairs@ == cell_pairs(cells@).take(i as int),
        decreases n - i,
    {
        pairs.push((cells[i].heap_offset, i));
        i = i + 1;
        assert(pairs@ =~= cell_pairs(cells@).take(i as int));
    }
    assert(pairs@ =~= cell_pairs(cells@));
    let sorted: Vec<(i64, usize)> = sort_pairs(&pairs);
    proof {
        sorted@.to_multiset_ensures();
        pairs@.to_multiset_ensures();
        assert forall|k: int| 0 <= k < sorted@.len() implies (#[trigger] sorted@[k]).1
            < cells@.len() && cells@[sorted@[k].1 as int].heap_offset == sorted@[k].0 by {
            assert(sorted@.contains(sorted@[k]));
            assert(sorted@.to_multiset().contains(sorted@[k]));
            assert(pairs@.to_multiset().contains(sorted@[k]));
            assert(pairs@.contains(sorted@[k]));
        }
    }
    let mut r: Vec<usize> = Vec::new();
    let mut k: usize = 0;
    while k < n
        invariant
            k <= n == sorted@.len(),
            r@ == Seq::new(k as nat, |j: int| sorted@[j].1),
        decreases n - k,
    {
        r.push(sorted[k].1);
        k = k + 1;
        assert(r@ =~= Seq::new(k as nat, |j: int| sorted@[j].1));
    }
    proof {
        let p = Seq::new(r@.len(), |i: int| (cells@[r@[i] as int].heap_offset, r@[i]));
        assert forall|k: int| 0 <= k < r@.len() implies #[trigger] r@[k] < cells@.len() by {
            assert(r@[k] == sorted@[k].1);
        }
        assert(p =~= sorted@);
    }
    r
}

/// Where the bytes of a cell are: their offset in the file and their number.
/// `base` is where the heap starts in the file.
pub open spec fn heap_span(letter: Letter, nelements: i64, heap_offset: i64, base: u64) -> Result<
    (u64, usize),
    CellError,
> {
    if nelements < 0 || heap_offset < 0 {
        Err(CellError::NegativeDescriptor { nelements, heap_offset })
    } else if cell_bytes(letter, nelements as nat) > usize::MAX || nelements > usize::MAX || base
        + heap_offset > u64::MAX {
        Err(CellError::TooLarge { nelements, heap_offset })
    } else {
        Ok(((base + heap_offset) as u64, cell_bytes(letter, nelements as nat) as usize))
    }
}

/// Where the bytes of a cell are.
pub fn heap_read(letter: Letter, nelements: i64, heap_offset: i64, base: u64) -> (r: Result<
    (u64, usize),
    CellError,
>)
    ensures
        r == heap_span(letter, nelements, heap_offset, base),
{
    if nelements < 0 || heap_offset < 0 {
        return Err(CellError::NegativeDescriptor { nelements, heap_offset });
    }
    if nelements as u64 > usize::MAX as u64 {
        return Err(CellError::TooLarge { nelements, heap_offset });
    }
    let n: usize = nelements as usize;
    match cell_bytes_of(letter, n) {
        None => Err(CellError::TooLarge { nelements, heap_offset }),
        Some(len) => match base.checked_add(heap_offset as u64) {
            None => Err(CellError::TooLarge { nelements, heap_offset }),
            Some(off) => Ok((off, len)),
        },
    }
}

/// The value of a cell from the heap.
#[derive(Debug)]
pub enum VarValue {
    /// The bytes as they stand in the file.
    Bytes(Vec<u8>),
    /// Characters.
    Text(String),
    /// Elements on the host.
    Array { dtype: NumpyType, bytes: Vec<u8> },
    /// Elements as they stand in the file, to be scaled into 64-bit floats.
    Stored { bytes: Vec<u8> },
}

/// The value of a cell from the heap, with its contents as sequences.
pub enum VarView {
    Bytes(Seq<u8>),
    Text(Seq<char>),
    Array { dtype: NumpyType, bytes: Seq<u8> },
    Stored { bytes: Seq<u8> },
}

impl View for VarValue {
    type V = VarView;

    open spec fn view(&self) -> VarView {
        match *self {
            VarValue::Bytes(b) => VarView::Bytes(b@),
            VarValue::Text(s) => VarView::Text(s@),
            VarValue::Array { dtype, bytes } => VarView::Array { dtype, bytes: bytes@ },
            VarValue::Stored { bytes } => VarView::Stored { bytes: bytes@ },
        }
    }
}

/// The first byte that is not ASCII.
pub open spec fn first_non_ascii(s: Seq<u8>) -> Option<int>
    decreases s.len(),
{
    if s.len() == 0 {
        None
    } else {
        match first_non_ascii(s.drop_last()) {
            Some(i) => Some(i),
            None => if s.last() >= 128 {
                Some(s.len() - 1)
            } else {
                None
            },
        }
    }
}

proof fn lemma_first_non_ascii(s: Seq<u8>, k: int)
    requires
        0 <= k <= s.len(),
        first_non_ascii(s.take(k)) is Some,
    ensures
        first_non_ascii(s) == first_non_ascii(s.take(k)),
    decreases s.len(),
{
    if k < s.len() {
        assert(s.drop_last().take(k) =~= s.take(k));
        lemma_first_non_ascii(s.drop_last(), k);
    } else {
        assert(s.take(k) =~= s);
    }
}

/// The characters that ASCII bytes stand for.
pub open spec fn ascii_text(s: Seq<u8>) -> Seq<char> {
    Seq::new(s.len(), |i: int| s[i] as char)
}

/// The first byte that is not ASCII.
pub fn find_non_ascii(src: &[u8]) -> (r: Option<usize>)
    ensures
        match r {
            Some(i) => first_non_ascii(src@) == Some(i as int) && i < src@.len(),
            None => first_non_ascii(src@) is None && forall|i: int|
                0 <= i < src@.len() ==> src@[i] < 128,
        },
{
    let n: usize = src.len();
    let mut i: usize = 0;
    assert(src@.take(0) =~= Seq::empty());
    while i < n
        invariant
            i <= n == src@.len(),
            first_non_ascii(src@.take(i as int)) is None,
            forall|k: int| 0 <= k < i ==> src@[k] < 128,
        decreases n - i,
    {
        proof {
            assert(src@.take(i + 1).drop_last() =~= src@.take(i as int));
        }
        if src[i] >= 128 {
            proof {
                lemma_first_non_ascii(src@, i + 1);
            }
            return Some(i);
        }
        i = i + 1;
    }
    assert(src@.take(n as int) =~= src@);
    None
}

fn ascii_string(src: &[u8]) -> (r: Result<String, CellError>)
    ensures
        match r {
            Ok(s) => first_non_ascii(src@) is None && s@ == ascii_text(src@),
            Err(e) => first_non_ascii(src@) matches Some(i) && e == (CellError::NonAsciiByte {
                byte: src@[i],
                position: i as usize,
            }),
        },
{
    match find_non_ascii(src) {
        Some(i) => {
            return Err(CellError::NonAsciiByte { byte: src[i], position: i });
        },
        None => {},
    }
    let n: usize = src.len();
    let mut c: Vec<char> = Vec::new();
    let mut i: usize = 0;
    while i < n
        invariant
            i <= n == src@.len(),
            c@ == ascii_text(src@).take(i as int),
        decreases n - i,
    {
        c.push(src[i] as char);
        i = i + 1;
        assert(c@ =~= ascii_text(src@).take(i as int));
    }
    assert(c@ =~= ascii_text(src@));
    Ok(string_of(&c))
}

/// The value of `n` elements from the heap. Characters are a text, or the raw
/// bytes where these are asked for; nothing is cut off them.
pub open spec fn var_value(
    letter: Letter,
    src: Seq<u8>,
    n: nat,
    as_bytes: bool,
    kind: ScalingKind,
    order: ByteOrder,
) -> Result<VarView, CellError> {
    let dtype = scaled_type(letter, kind);
    if letter is A {
        if as_bytes {
            Ok(VarView::Bytes(src))
        } else {
            match first_non_ascii(src) {
                Some(i) => Err(
                    CellError::NonAsciiByte { byte: src[i], position: i as usize },
                ),
                None => Ok(VarView::Text(ascii_text(src))),
            }
        }
    } else if n == 0 {
        Ok(VarView::Array { dtype, bytes: Seq::empty() })
    } else if src.len() != cell_bytes(letter, n) {
        Err(
            CellError::HeapLength {
                got: src.len() as usize,
                expected: cell_bytes(letter, n) as usize,
            },
        )
    } else if letter is X {
        Ok(VarView::Array { dtype, bytes: unpacked_bits(src, n) })
    } else {
        match kind {
            ScalingKind::UnsignedTrick => Ok(
                VarView::Array {
                    dtype,
                    bytes: flipped_cell(src, element_size(letter)->0 as int, n as int, order),
                },
            ),
            ScalingKind::General => Ok(VarView::Stored { bytes: src }),
            ScalingKind::Unscaled => Ok(
                VarView::Array {
                    dtype,
                    bytes: if letter is L {
                        truth_values(src)
                    } else {
                        native(src, swap_width(letter) as int, order)
                    },
                },
            ),
        }
    }
}

/// Whether a kind of scaling can apply to the elements of a cell: none to bits
/// and characters.
pub open spec fn var_scaling_fits(letter: Letter, kind: ScalingKind) -> bool {
    scaling_fits(letter, kind) && (letter is X || letter is A ==> kind is Unscaled)
}

/// Turns the bytes of a cell from the heap into its value.
pub fn build_var_cell_value(
    letter: Letter,
    src: &[u8],
    nelements: usize,
    as_bytes: bool,
    kind: ScalingKind,
    order: ByteOrder,
) -> (r: Result<VarValue, CellError>)
    requires
        cell_bytes(letter, nelements as nat) <= usize::MAX,
        var_scaling_fits(letter, kind),
    ensures
        match r {
            Ok(v) => var_value(letter, src@, nelements as nat, as_bytes, kind, order) == Ok::<
                VarView,
                CellError,
            >(v@),
            Err(e) => var_value(letter, src@, nelements as nat, as_bytes, kind, order) == Err::<
                VarView,
                CellError,
            >(e),
        },
{
    let len: usize = src.len();
    match letter {
        Letter::A => {
            if as_bytes {
                let b: Vec<u8> = copy_of(src, 0, len);
                assert(b@ =~= src@);
                return Ok(VarValue::Bytes(b));
            }
            return match ascii_string(src) {
                Ok(s) => Ok(VarValue::Text(s)),
                Err(e) => Err(e),
            };
        },
        _ => {},
    }
    let dtype: NumpyType = scaled_output_dtype(letter, kind);
    if nelements == 0 {
        let bytes: Vec<u8> = Vec::new();
        assert(bytes@ =~= Seq::empty());
        return Ok(VarValue::Array { dtype, bytes });
    }
    let expected: usize = match cell_bytes_of(letter, nelements) {
        Some(b) => b,
        None => 0,
    };
    if len != expected {
        return Err(CellError::HeapLength { got: len, expected });
    }
    match letter {
        Letter::X => {
            return Ok(VarValue::Array { dtype, bytes: unpack_bits(src, nelements) });
        },
        _ => {},
    }
    match kind {
        ScalingKind::UnsignedTrick => Ok(
            VarValue::Array {
                dtype,
                bytes: convert_unsigned_trick_cell(letter, nelements, src, order),
            },
        ),
        ScalingKind::General => {
            let bytes: Vec<u8> = copy_of(src, 0, len);
            assert(bytes@ =~= src@);
            Ok(VarValue::Stored { bytes })
        },
        ScalingKind::Unscaled => {
            let bytes: Vec<u8> = match letter {
                Letter::L => convert_l_cell(src),
                _ => copy_with_byteswap(src, byteswap_unit(letter), order),
            };
            Ok(VarValue::Array { dtype, bytes })
        },
    }
}

} // verus!
