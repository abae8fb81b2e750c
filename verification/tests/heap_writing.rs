use fits_table::bytes::ByteOrder;
use fits_table::columns::{Column, Descriptor, Letter, ScalingKind};
use fits_table::error::{CellError, EditError, InputError, VarError, WriteError};
use fits_table::heap::{build_var_cell_value, read_descriptor, write_descriptor, VarValue};
use fits_table::heapwrite::encode_main_rows;
use fits_table::input::ArrayInfo;
use fits_table::keywords::{parse_columns, ColumnKeywords, TableKeywords};
use fits_table::layout::{
    grow_data_extent, grow_or_shrink_data_extent, plan_append, plan_heap_growth, plan_overwrite,
    round_up_to_block, Extent,
};
use fits_table::plans::{
    append_fixed_only, append_vla_aware, setitem_rows_vla_aware_inner, write_vla_aware, TablePlace,
};
use fits_table::repack::{repack_applies, repack_table_heap};
use fits_table::vla::{plan_vla_heap_layout, serialize_vla_cell, validate_vla_cell, VarInput};

fn keywords(name: &str, tform: &str) -> ColumnKeywords {
    ColumnKeywords {
        ttype: Some(name.to_string()),
        tform: Some(tform.to_string()),
        tdim: None,
        tscal: None,
        tzero: None,
        tnull: None,
        tunit: None,
    }
}

fn columns(list: Vec<ColumnKeywords>, width: i64) -> Vec<Column> {
    parse_columns(&TableKeywords {
        naxis1: Some(width),
        naxis2: Some(2),
        tfields: Some(list.len() as i64),
        theap: None,
        columns: list,
    })
    .unwrap()
}

fn numbers(values: &[i16]) -> VarInput {
    let mut bytes = Vec::new();
    for v in values {
        bytes.extend_from_slice(&v.to_le_bytes());
    }
    VarInput::Array {
        shape: vec![values.len()],
        kind: 'i',
        itemsize: 2,
        contiguous: true,
        bytes,
    }
}

fn array(shape: Vec<usize>, kind: char, itemsize: usize) -> ArrayInfo {
    let nbytes = shape.iter().product::<usize>() * itemsize;
    ArrayInfo { is_array: true, shape, kind, itemsize, contiguous: true, nbytes }
}

/// A number, a list of numbers and a text.
fn mixed() -> Vec<Column> {
    columns(vec![keywords("n", "1I"), keywords("v", "1PI"), keywords("s", "1PA")], 18)
}

fn mixed_arrays(rows: usize) -> Vec<ArrayInfo> {
    vec![array(vec![rows], 'i', 2), array(vec![rows], 'O', 8), array(vec![rows], 'O', 8)]
}

fn mixed_cells() -> Vec<Vec<VarInput>> {
    vec![
        Vec::new(),
        vec![numbers(&[1, 2]), numbers(&[])],
        vec![VarInput::Text("abc".to_string()), VarInput::Bytes(vec![200])],
    ]
}

#[test]
fn descriptors_keep_counts_and_places() {
    let p = write_descriptor(Descriptor::P, 3, 258);
    assert_eq!(p, vec![0, 0, 0, 3, 0, 0, 1, 2]);
    assert_eq!(read_descriptor(Descriptor::P, &p), (3, 258));
    let q = write_descriptor(Descriptor::Q, 1 << 40, 7);
    assert_eq!(read_descriptor(Descriptor::Q, &q), (1 << 40, 7));
    // Half of the range and more comes back negative.
    let p = write_descriptor(Descriptor::P, 1 << 31, 0);
    assert_eq!(read_descriptor(Descriptor::P, &p), (-(1 << 31), 0));
}

#[test]
fn cells_for_the_heap_are_checked() {
    assert_eq!(validate_vla_cell(&numbers(&[1, 2, 3]), Letter::I), Ok(3));
    assert_eq!(
        validate_vla_cell(&numbers(&[1]), Letter::J),
        Err(VarError::NeedsKind { kind: 'i', size: 4 })
    );
    assert_eq!(validate_vla_cell(&numbers(&[1]), Letter::A), Err(VarError::NotString));
    assert_eq!(validate_vla_cell(&VarInput::Other, Letter::I), Err(VarError::NotArray));
    assert_eq!(validate_vla_cell(&VarInput::Text("ab".to_string()), Letter::A), Ok(2));
    assert_eq!(
        validate_vla_cell(&VarInput::Text("aé".to_string()), Letter::A),
        Err(VarError::NonAsciiByte { byte: 0xc3, position: 1 })
    );
    assert_eq!(validate_vla_cell(&VarInput::Bytes(vec![0xc3]), Letter::A), Ok(1));
    let plane = VarInput::Array {
        shape: vec![2, 1],
        kind: 'i',
        itemsize: 2,
        contiguous: true,
        bytes: vec![0; 4],
    };
    assert_eq!(validate_vla_cell(&plane, Letter::I), Err(VarError::NotOneAxis));
    let strided = |n: usize| VarInput::Array {
        shape: vec![n],
        kind: 'i',
        itemsize: 2,
        contiguous: false,
        bytes: vec![0; 2 * n],
    };
    assert_eq!(validate_vla_cell(&strided(1), Letter::I), Err(VarError::NotContiguous));
    assert_eq!(validate_vla_cell(&strided(0), Letter::I), Ok(0));
}

#[test]
fn cells_of_the_heap_read_back() {
    let cell = numbers(&[1, -2]);
    let bytes = serialize_vla_cell(&cell, Letter::I);
    assert_eq!(bytes, vec![0, 1, 0xff, 0xfe]);
    let back =
        build_var_cell_value(Letter::I, &bytes, 2, false, ScalingKind::Unscaled, ByteOrder::Little);
    assert!(matches!(
        back,
        Ok(VarValue::Array { bytes, .. }) if bytes == vec![1, 0, 0xfe, 0xff]
    ));
    let flags = VarInput::Array {
        shape: vec![10],
        kind: 'b',
        itemsize: 1,
        contiguous: true,
        bytes: vec![1, 0, 1, 0, 0, 0, 0, 0, 0, 1],
    };
    let bits = serialize_vla_cell(&flags, Letter::X);
    assert_eq!(bits, vec![0xa0, 0x40]);
    assert_eq!(serialize_vla_cell(&flags, Letter::L), b"TFTFFFFFFT".to_vec());
}

#[test]
fn a_table_with_a_heap_is_written() {
    let cols = mixed();
    let t =
        TablePlace { data_offset: 5760, file_len: 8640, nrows: 2, row_width: 18, pcount: 0 };
    let p = write_vla_aware(&cols, &mixed_arrays(2), &mixed_cells(), t).unwrap();
    // Row by row: two numbers, three letters; nothing, one byte.
    assert_eq!(p.heap, vec![0, 1, 0, 2, b'a', b'b', b'c', 200]);
    assert_eq!(p.write.heap_end, 8);
    assert_eq!(p.layout.rows_at, 5760);
    assert_eq!(p.layout.heap_at, 5796);
    assert_eq!(p.layout.extent, Extent::Keep);
    assert!(p.hints.is_empty());
    let bufs = vec![vec![7, 0, 8, 0], vec![0; 16], vec![0; 16]];
    let rows =
        encode_main_rows(&cols, &p.write.sources, &p.write.plans, &bufs, 0, 2, 2).unwrap();
    assert_eq!(rows.len(), 36);
    assert_eq!(&rows[0..2], &[0, 7]);
    assert_eq!(read_descriptor(Descriptor::P, &rows[2..10]), (2, 0));
    assert_eq!(read_descriptor(Descriptor::P, &rows[10..18]), (3, 4));
    assert_eq!(read_descriptor(Descriptor::P, &rows[20..28]), (0, 7));
    assert_eq!(read_descriptor(Descriptor::P, &rows[28..36]), (1, 7));
}

#[test]
fn bits_in_the_heap_get_a_hint() {
    let cols = columns(vec![keywords("x", "1QX")], 16);
    let flags = |n: usize| VarInput::Array {
        shape: vec![n],
        kind: 'b',
        itemsize: 1,
        contiguous: true,
        bytes: vec![1; n],
    };
    let t = TablePlace { data_offset: 0, file_len: 2880, nrows: 2, row_width: 16, pcount: 0 };
    let p = write_vla_aware(
        &cols,
        &vec![array(vec![2], 'O', 8)],
        &vec![vec![flags(3), flags(11)]],
        t,
    )
    .unwrap();
    assert_eq!(p.heap, vec![0xe0, 0xff, 0xe0]);
    assert_eq!(p.hints.len(), 1);
    assert_eq!((p.hints[0].number, p.hints[0].bits), (1, 11));
    assert_eq!(p.hints[0].kind, Descriptor::Q);
}

#[test]
fn tables_that_cannot_be_written() {
    let cols = mixed();
    let t = TablePlace { data_offset: 0, file_len: 2880, nrows: 2, row_width: 18, pcount: 0 };
    let give = |arrays: Vec<ArrayInfo>, cells: Vec<Vec<VarInput>>| {
        write_vla_aware(&cols, &arrays, &cells, t).map(|p| p.heap.len())
    };
    let mut arrays = mixed_arrays(2);
    arrays[2] = array(vec![3], 'O', 8);
    assert_eq!(
        give(arrays, mixed_cells()),
        Err(WriteError::ColumnRows { column: 2, got: 3, want: 2 })
    );
    let mut arrays = mixed_arrays(2);
    arrays[0].contiguous = false;
    assert_eq!(
        give(arrays, mixed_cells()),
        Err(WriteError::Column { column: 0, error: InputError::NotContiguous })
    );
    let mut cells = mixed_cells();
    cells[1][1] = VarInput::Other;
    cells[2][1] = VarInput::Other;
    assert_eq!(
        give(mixed_arrays(2), cells),
        Err(WriteError::HeapCell { column: 1, row: 1, heap: VarError::NotArray })
    );
    let huge = TablePlace { data_offset: u64::MAX - 100, ..t };
    let r = write_vla_aware(&cols, &mixed_arrays(2), &mixed_cells(), huge).map(|p| p.heap.len());
    assert_eq!(r, Err(WriteError::TooLarge));
}

#[test]
fn added_rows_point_behind_the_heap() {
    let cols = mixed();
    let t =
        TablePlace { data_offset: 2880, file_len: 5760, nrows: 3, row_width: 18, pcount: 100 };
    let p = append_vla_aware(&cols, &mixed_arrays(2), &mixed_cells(), t, 2).unwrap();
    assert_eq!((p.nrows, p.pcount), (5, 108));
    assert_eq!(p.layout.rows_at, 2880 + 54);
    assert_eq!(p.layout.heap_to, 2880 + 90);
    assert_eq!(p.layout.heap_at, 2880 + 190);
    assert_eq!(p.write.plans[1][0].offset, 100);
    assert_eq!(p.write.plans[2][1].offset, 107);
    let (layout, nrows) = append_fixed_only(t, 200).unwrap();
    assert_eq!(nrows, 203);
    assert_eq!(layout.rows_at, 2880 + 54);
    assert_eq!(layout.extent, Extent::SetLength { length: 2880 + 5760 });
}

#[test]
fn overwritten_rows_leave_the_heap_alone() {
    let cols = mixed();
    let t =
        TablePlace { data_offset: 2880, file_len: 9000, nrows: 3, row_width: 18, pcount: 2820 };
    let p = setitem_rows_vla_aware_inner(&cols, &mixed_arrays(2), &mixed_cells(), 2, t).unwrap();
    assert_eq!(p.layout.heap_at, 2880 + 54 + 2820);
    assert_eq!(p.pcount, 2828);
    assert_eq!(p.layout.extent, Extent::OpenGap { at: 5760, by: 2880 });
    assert_eq!(p.write.plans[1][0].offset, 2820);
}

#[test]
fn blocks() {
    assert_eq!(round_up_to_block(0), Some(0));
    assert_eq!(round_up_to_block(1), Some(2880));
    assert_eq!(round_up_to_block(2880), Some(2880));
    assert_eq!(round_up_to_block(2881), Some(5760));
    assert_eq!(round_up_to_block(u64::MAX), None);
}

#[test]
fn data_that_change_their_size() {
    assert_eq!(grow_or_shrink_data_extent(2880, 10, 2000, 99999), Some(Extent::Keep));
    assert_eq!(
        grow_or_shrink_data_extent(2880, 10, 3000, 5760),
        Some(Extent::SetLength { length: 8640 })
    );
    assert_eq!(
        grow_or_shrink_data_extent(2880, 10, 3000, 8640),
        Some(Extent::OpenGap { at: 5760, by: 2880 })
    );
    assert_eq!(
        grow_or_shrink_data_extent(2880, 3000, 10, 11520),
        Some(Extent::CloseGap { at: 8640, by: 2880 })
    );
    assert_eq!(
        grow_or_shrink_data_extent(2880, 3000, 10, 8640),
        Some(Extent::SetLength { length: 5760 })
    );
    assert_eq!(grow_or_shrink_data_extent(u64::MAX, 1, 1, 0), None);
    assert_eq!(grow_data_extent(2880, 3000, 10, 11520), Some(Extent::Keep));
    assert_eq!(grow_data_extent(2880, 3000, 10, 8640), Some(Extent::Keep));
    assert_eq!(
        grow_data_extent(2880, 10, 3000, 5760),
        Some(Extent::SetLength { length: 8640 })
    );
}

#[test]
fn places_in_the_file() {
    let o = plan_overwrite(2880, 4, 100, 50, 3000, 5760).unwrap();
    assert_eq!((o.rows_at, o.heap_at), (2880, 3280));
    assert_eq!(o.extent, Extent::SetLength { length: 8640 });
    let a = plan_append(2880, 4, 2, 100, 50, 60, 5760).unwrap();
    assert_eq!((a.rows_at, a.heap_to, a.heap_at), (3280, 3480, 3530));
    let h = plan_heap_growth(2880, 4, 100, 50, 60, 5760).unwrap();
    assert_eq!((h.heap_at, h.extent), (3330, Extent::Keep));
    assert_eq!(
        plan_append(0, usize::MAX, 1, usize::MAX, 0, 0, 0),
        Err(WriteError::TooLarge)
    );
}

/// Rows of the table of numbers, lists and texts, with the given descriptors.
fn rows_with(list: &[((u64, u64), (u64, u64))]) -> Vec<u8> {
    let mut rows = Vec::new();
    for (i, (v, s)) in list.iter().enumerate() {
        rows.extend_from_slice(&[0, i as u8]);
        rows.extend(write_descriptor(Descriptor::P, v.0, v.1));
        rows.extend(write_descriptor(Descriptor::P, s.0, s.1));
    }
    rows
}

#[test]
fn repacking_drops_what_nothing_points_to() {
    let cols = mixed();
    let heap: Vec<u8> = (0..20).collect();
    let main = rows_with(&[((2, 10), (3, 0)), ((0, 5), (1, 19))]);
    let p = repack_table_heap(&cols, main, &heap, 2, 18).unwrap().unwrap();
    assert_eq!(p.heap, vec![10, 11, 12, 13, 0, 1, 2, 19]);
    assert_eq!(p.main, rows_with(&[((2, 0), (3, 4)), ((0, 7), (1, 7))]));
    // A second time there is nothing to do.
    let again = repack_table_heap(&cols, p.main, &p.heap, 2, 18).unwrap();
    assert!(again.is_none());
}

#[test]
fn descriptors_that_point_to_no_cell() {
    let cols = mixed();
    let heap = vec![0u8; 20];
    let bad = |list: &[((u64, u64), (u64, u64))]| {
        repack_table_heap(&cols, rows_with(list), &heap, list.len(), 18).map(|p| p.is_some())
    };
    assert_eq!(
        bad(&[((0, 0), (0, 0)), ((0, 0), (21, 0))]),
        Err(EditError::Cell {
            column: 2,
            row: 1,
            cell: CellError::PastHeap { end: 21, heap: 20 }
        })
    );
    assert_eq!(
        bad(&[((1 << 31, 0), (0, 0))]),
        Err(EditError::Cell {
            column: 1,
            row: 0,
            cell: CellError::NegativeDescriptor { nelements: -(1 << 31), heap_offset: 0 }
        })
    );
    let wide = columns(vec![keywords("m", "1QM")], 16);
    let main = write_descriptor(Descriptor::Q, i64::MAX as u64, 0);
    assert_eq!(
        repack_table_heap(&wide, main, &heap, 1, 16).map(|p| p.is_some()),
        Err(EditError::Cell {
            column: 0,
            row: 0,
            cell: CellError::TooLarge { nelements: i64::MAX, heap_offset: 0 }
        })
    );
}

#[test]
fn tables_that_need_no_repacking() {
    let cols = mixed();
    assert_eq!(repack_applies(&cols, 2, 18, 10, 0), Ok(true));
    assert_eq!(repack_applies(&cols, 2, 18, 10, 36), Ok(true));
    assert_eq!(repack_applies(&cols, 2, 18, 0, 0), Ok(false));
    assert_eq!(repack_applies(&cols, 0, 18, 10, 99), Ok(false));
    assert_eq!(
        repack_applies(&cols, 2, 18, 10, 40),
        Err(EditError::CustomHeap { theap: 40, main: 36 })
    );
    let plain = columns(vec![keywords("n", "1I")], 2);
    assert_eq!(repack_applies(&plain, 2, 2, 10, 40), Ok(false));
}

#[test]
fn a_heap_that_no_machine_holds() {
    let cols = mixed();
    let r = plan_vla_heap_layout(&cols, &mixed_cells(), 2, usize::MAX - 1);
    assert_eq!(r.err(), Some(WriteError::HeapTooLarge));
    let (plans, end) = plan_vla_heap_layout(&cols, &mixed_cells(), 2, 100).unwrap();
    assert_eq!(end, 108);
    assert_eq!(plans[1][0].offset, 100);
    assert_eq!(plans[2][0].offset, 104);
    assert_eq!((plans[2][1].nelements, plans[2][1].offset), (1, 107));
}
