use fits_table::bytes::ByteOrder;
use fits_table::cells::{convert_column_cell, write_cell_mask};
use fits_table::columns::{Column, Letter, ScalingKind};
use fits_table::error::{CellError, ColumnError, ReadError, RowError};
use fits_table::fields::{
    column_expected_shape, field_dtype_and_shape, resolve_column_places, NumpyType,
};
use fits_table::heap::{build_var_cell_value, heap_order, heap_read, VarCell, VarValue};
use fits_table::keywords::{parse_table_meta, ColumnKeywords, TableKeywords, TableMeta};
use fits_table::read::{
    column_array_type, convert_rows, mask_rows, plan_read, plan_read_column, FieldPlace,
};
use fits_table::rows::{resolve_rows, RowSelector};
use fits_table::runs::{plan_chunks, plan_runs, rows_per_chunk};

fn keywords(name: &str, tform: &str) -> ColumnKeywords {
    ColumnKeywords {
        ttype: Some(name.to_string()),
        tform: Some(tform.to_string()),
        tdim: None,
        tscal: None,
        tzero: None,
        tnull: None,
        tunit: None,
    }
}

fn meta(columns: Vec<ColumnKeywords>, naxis1: i64, naxis2: i64) -> TableMeta {
    parse_table_meta(&TableKeywords {
        naxis1: Some(naxis1),
        naxis2: Some(naxis2),
        tfields: Some(columns.len() as i64),
        theap: None,
        columns,
    })
    .unwrap()
}

fn column(tform: &str, width: i64) -> Column {
    let mut m = meta(vec![keywords("c", tform)], width, 1);
    m.columns.remove(0)
}

fn list(rows: &[i64]) -> RowSelector {
    RowSelector::List(rows.to_vec())
}

#[test]
fn rows_are_selected_once_each() {
    assert_eq!(resolve_rows(&list(&[3, -1, 0, 3]), 5), Ok(vec![3, 4, 0]));
    assert_eq!(
        resolve_rows(&RowSelector::Slice { start: 1, stop: 5, step: 2 }, 5),
        Ok(vec![1, 3])
    );
    assert_eq!(
        resolve_rows(&RowSelector::Slice { start: 4, stop: -1, step: -2 }, 5),
        Ok(vec![4, 2, 0])
    );
    assert_eq!(
        resolve_rows(&list(&[5]), 5),
        Err(RowError::OutOfRange { index: 5, nrows: 5 })
    );
    assert_eq!(
        resolve_rows(&list(&[-6]), 5),
        Err(RowError::OutOfRange { index: -6, nrows: 5 })
    );
    assert_eq!(
        resolve_rows(&RowSelector::Slice { start: 0, stop: 5, step: 0 }, 5),
        Err(RowError::ZeroStep)
    );
    assert_eq!(resolve_rows(&list(&[]), 5), Err(RowError::NoRows));
    assert_eq!(
        resolve_rows(&RowSelector::Slice { start: 3, stop: 3, step: 1 }, 5),
        Err(RowError::NoRows)
    );
    // All rows of a table without any are no rows.
    assert_eq!(
        resolve_rows(&RowSelector::Slice { start: 0, stop: 0, step: 1 }, 0),
        Ok(vec![])
    );
    assert_eq!(resolve_rows(&list(&[]), 0), Err(RowError::NoRows));
    assert_eq!(
        resolve_rows(&RowSelector::Slice { start: -1, stop: -1, step: -1 }, 0),
        Err(RowError::NoRows)
    );
    assert_eq!(
        resolve_rows(&RowSelector::Slice { start: 0, stop: 0, step: 2 }, 0),
        Err(RowError::NoRows)
    );
}

#[test]
fn neighbouring_rows_are_read_in_one_run() {
    let (n, runs) = plan_runs(&Some(list(&[7, 2, 3, 1, 8])), 10).unwrap();
    assert_eq!(n, 5);
    assert_eq!(runs.len(), 2);
    assert_eq!((runs[0].start, runs[0].len), (1, 3));
    assert_eq!(runs[0].output, vec![3, 1, 2]);
    assert_eq!((runs[1].start, runs[1].len), (7, 2));
    assert_eq!(runs[1].output, vec![0, 4]);
    let (n, runs) = plan_runs(&None, 4).unwrap();
    assert_eq!(n, 4);
    assert_eq!(runs.len(), 1);
    assert_eq!((runs[0].start, runs[0].len), (0, 4));
}

#[test]
fn runs_are_read_in_chunks() {
    let (_, runs) = plan_runs(&None, 10).unwrap();
    let chunks = plan_chunks(&runs, 4);
    let parts: Vec<(usize, usize)> = chunks.iter().map(|c| (c.start, c.rows)).collect();
    assert_eq!(parts, vec![(0, 4), (4, 4), (8, 2)]);
    assert!(rows_per_chunk(0) >= 1);
    assert_eq!(rows_per_chunk(usize::MAX), 1);
}

#[test]
fn names_are_looked_up_in_any_case() {
    let m = meta(vec![keywords("Ra", "1D"), keywords("dec", "1D")], 16, 1);
    let names = |v: &[&str]| v.iter().map(|s| s.to_string()).collect::<Vec<String>>();
    assert_eq!(resolve_column_places(&m.columns, &names(&[" DEC ", "RA"])), Ok(vec![1, 0]));
    assert_eq!(resolve_column_places(&m.columns, &names(&[])), Err(ColumnError::EmptyRequest));
    assert_eq!(
        resolve_column_places(&m.columns, &names(&["ra", "Ra"])),
        Err(ColumnError::DuplicateName { at: 1 })
    );
    assert_eq!(
        resolve_column_places(&m.columns, &names(&["ra", "mag"])),
        Err(ColumnError::UnknownName { at: 1 })
    );
}

#[test]
fn numbers_get_the_order_of_the_host() {
    let c = column("2I", 4);
    let src = [0x12, 0x34, 0xff, 0xfe];
    assert_eq!(
        convert_column_cell(&c, &src, ScalingKind::Unscaled, ByteOrder::Little),
        Ok(vec![0x34, 0x12, 0xfe, 0xff])
    );
    assert_eq!(
        convert_column_cell(&c, &src, ScalingKind::Unscaled, ByteOrder::Big),
        Ok(src.to_vec())
    );
    // -32768 stored is 0 unsigned.
    assert_eq!(
        convert_column_cell(
            &c,
            &[0x80, 0x00, 0x7f, 0xff],
            ScalingKind::UnsignedTrick,
            ByteOrder::Little
        ),
        Ok(vec![0, 0, 0xff, 0xff])
    );
}

#[test]
fn truth_values_bits_and_strings() {
    let c = column("3L", 3);
    assert_eq!(
        convert_column_cell(&c, b"TF\0", ScalingKind::Unscaled, ByteOrder::Little),
        Ok(vec![1, 0, 0])
    );
    let c = column("10X", 2);
    assert_eq!(
        convert_column_cell(&c, &[0b1010_0000, 0b0100_0000], ScalingKind::Unscaled, ByteOrder::Little),
        Ok(vec![1, 0, 1, 0, 0, 0, 0, 0, 0, 1])
    );
    let c = column("4A", 4);
    let ab = convert_column_cell(&c, b"ab  ", ScalingKind::Unscaled, ByteOrder::Little).unwrap();
    let mut want = vec![b'a', 0, 0, 0, b'b', 0, 0, 0];
    want.extend_from_slice(&[0; 8]);
    assert_eq!(ab, want);
    assert_eq!(
        convert_column_cell(&c, &[b'a', 0xc3, 0, 0], ScalingKind::Unscaled, ByteOrder::Little),
        Err(CellError::NonAsciiByte { byte: 0xc3, position: 1 })
    );
}

#[test]
fn nulls_are_marked() {
    assert_eq!(write_cell_mask(Letter::I, 3, -1, &[0xff, 0xff, 0, 1, 0xff, 0xff]), vec![1, 0, 1]);
    assert_eq!(write_cell_mask(Letter::B, 2, 255, &[255, 254]), vec![1, 0]);
}

#[test]
fn types_and_shapes_of_fields() {
    let mut wide = keywords("w", "6J");
    wide.tdim = Some("(3,2)".to_string());
    let mut names = keywords("n", "12A");
    names.tdim = Some("(4,3)".to_string());
    let m = meta(vec![wide, names, keywords("v", "1PE"), keywords("b", "5X")], 24 + 12 + 8 + 1, 1);
    assert_eq!(column_expected_shape(&m.columns[0]), vec![2, 3]);
    assert_eq!(
        field_dtype_and_shape(&m.columns[1], true),
        Some((NumpyType::Text(4), vec![3]))
    );
    assert_eq!(field_dtype_and_shape(&m.columns[2], true), Some((NumpyType::Object, vec![])));
    assert_eq!(field_dtype_and_shape(&m.columns[3], true), Some((NumpyType::Bool, vec![5])));
    assert_eq!(NumpyType::Text(4).code(), "U4");
    assert_eq!(NumpyType::C16.code(), "c16");
    assert_eq!(
        column_array_type(&m.columns[1], true, true),
        Some((NumpyType::Bytes(4), vec![3]))
    );
}

#[test]
fn selected_rows_come_in_the_order_asked_for() {
    let m = meta(vec![keywords("a", "1I"), keywords("s", "1PB")], 10, 4);
    let plan = plan_read(&m, &Some(list(&[2, 0])), &None, true, false).unwrap();
    assert_eq!(plan.n_out, 2);
    // Records of a number and room for a reference.
    let places = vec![FieldPlace { offset: 0, width: 2 }, FieldPlace { offset: 2, width: 8 }];
    let mut out = vec![0u8; 2 * 10];
    let mut cells: Vec<VarCell> = Vec::new();
    for chunk in plan_chunks(&plan.runs, 100) {
        // Row `r` holds `r` and a descriptor of `r` bytes at `10 * r`.
        let mut bytes = Vec::new();
        for r in chunk.start..chunk.start + chunk.rows {
            bytes.extend_from_slice(&[0, r as u8]);
            bytes.extend_from_slice(&[0, 0, 0, r as u8, 0, 0, 0, 10 * r as u8]);
        }
        convert_rows(&plan, &places, 10, 10, chunk, &bytes, ByteOrder::Little, &mut out, &mut cells)
            .unwrap();
    }
    assert_eq!((out[0], out[10]), (2, 0));
    assert_eq!(cells.len(), 2);
    let order = heap_order(&cells);
    let met: Vec<(usize, usize, i64, i64)> = order
        .iter()
        .map(|&i| (cells[i].output_row, cells[i].column, cells[i].nelements, cells[i].heap_offset))
        .collect();
    assert_eq!(met, vec![(1, 1, 0, 0), (0, 1, 2, 20)]);
}

#[test]
fn a_bad_cell_names_its_row_and_column() {
    let m = meta(vec![keywords("a", "1I"), keywords("s", "2A")], 4, 2);
    let plan = plan_read(&m, &None, &None, true, false).unwrap();
    let places = vec![FieldPlace { offset: 0, width: 2 }, FieldPlace { offset: 2, width: 8 }];
    let mut out = vec![0u8; 20];
    let mut cells: Vec<VarCell> = Vec::new();
    let bytes = [0, 1, b'a', b'b', 0, 2, b'c', 200];
    let chunks = plan_chunks(&plan.runs, 100);
    let r = convert_rows(
        &plan,
        &places,
        10,
        4,
        chunks[0],
        &bytes,
        ByteOrder::Little,
        &mut out,
        &mut cells,
    );
    assert_eq!(
        r,
        Err(ReadError::Cell {
            column: 1,
            row: 1,
            error: CellError::NonAsciiByte { byte: 200, position: 1 }
        })
    );
}

#[test]
fn reads_that_cannot_be_planned() {
    let mut null = keywords("v", "1PJ");
    null.tnull = Some(-1);
    let mut complex = keywords("c", "1C");
    complex.tscal = Some(2f64.to_bits());
    let m = meta(vec![keywords("a", "1I"), null, complex], 18, 2);
    let read = |names: Option<Vec<String>>, scale: bool, mask: bool| {
        plan_read(&m, &None, &names, scale, mask).map(|p| p.n_out)
    };
    let one = |s: &str| Some(vec![s.to_string()]);
    assert_eq!(
        read(one("v"), true, true),
        Err(ReadError::Columns(ColumnError::VariableNull { at: 0 }))
    );
    assert_eq!(
        read(one("c"), true, false),
        Err(ReadError::Columns(ColumnError::ScaledComplex { at: 0 }))
    );
    assert_eq!(read(one("c"), false, false), Ok(2));
    let bytes = plan_read_column(&m, "a", &None, true, true, false).map(|p| p.n_out);
    assert_eq!(bytes, Err(ReadError::Columns(ColumnError::NotCharacters { letter: 'I' })));
    let rows = plan_read_column(&m, "a", &Some(list(&[9])), false, true, false).map(|p| p.n_out);
    assert_eq!(rows, Err(ReadError::Rows(RowError::OutOfRange { index: 9, nrows: 2 })));
}

#[test]
fn masks_follow_the_records() {
    let mut a = keywords("a", "2B");
    a.tnull = Some(9);
    let m = meta(vec![a, keywords("b", "1I")], 4, 2);
    let plan = plan_read(&m, &Some(list(&[1, 0])), &None, true, true).unwrap();
    assert!(plan.masked);
    let places = vec![FieldPlace { offset: 0, width: 2 }, FieldPlace { offset: 2, width: 1 }];
    let mut mask = vec![0u8; 6];
    for chunk in plan_chunks(&plan.runs, 100) {
        let rows = [[9, 1, 0, 0], [2, 9, 0, 0]];
        let mut bytes = Vec::new();
        for r in chunk.start..chunk.start + chunk.rows {
            bytes.extend_from_slice(&rows[r]);
        }
        mask_rows(&plan, &places, 3, 4, chunk, &bytes, &mut mask);
    }
    assert_eq!(mask, vec![0, 1, 0, 1, 0, 0]);
}

#[test]
fn cells_of_the_heap() {
    let text = build_var_cell_value(
        Letter::A,
        b"abc ",
        4,
        false,
        ScalingKind::Unscaled,
        ByteOrder::Little,
    );
    assert!(matches!(text, Ok(VarValue::Text(s)) if s == "abc "));
    let raw =
        build_var_cell_value(Letter::A, &[200], 1, true, ScalingKind::Unscaled, ByteOrder::Little);
    assert!(matches!(raw, Ok(VarValue::Bytes(b)) if b == vec![200]));
    let bad =
        build_var_cell_value(Letter::A, &[200], 1, false, ScalingKind::Unscaled, ByteOrder::Little);
    assert!(matches!(bad, Err(CellError::NonAsciiByte { byte: 200, position: 0 })));
    let bits =
        build_var_cell_value(Letter::X, &[0x80], 3, false, ScalingKind::Unscaled, ByteOrder::Little);
    assert!(matches!(
        bits,
        Ok(VarValue::Array { dtype: NumpyType::Bool, bytes }) if bytes == vec![1, 0, 0]
    ));
    let short =
        build_var_cell_value(Letter::I, &[1, 2], 2, false, ScalingKind::Unscaled, ByteOrder::Little);
    assert!(matches!(short, Err(CellError::HeapLength { got: 2, expected: 4 })));
    let stored =
        build_var_cell_value(Letter::I, &[1, 2], 1, false, ScalingKind::General, ByteOrder::Little);
    assert!(matches!(stored, Ok(VarValue::Stored { bytes }) if bytes == vec![1, 2]));
    let empty =
        build_var_cell_value(Letter::D, &[], 0, false, ScalingKind::Unscaled, ByteOrder::Little);
    assert!(matches!(empty, Ok(VarValue::Array { dtype: NumpyType::F8, bytes }) if bytes.is_empty()));
    assert_eq!(heap_read(Letter::D, 3, 16, 1000), Ok((1016, 24)));
    assert_eq!(heap_read(Letter::X, 9, 1, 1000), Ok((1001, 2)));
    assert_eq!(
        heap_read(Letter::D, -1, 16, 1000),
        Err(CellError::NegativeDescriptor { nelements: -1, heap_offset: 16 })
    );
    assert_eq!(
        heap_read(Letter::D, i64::MAX, 0, 0),
        Err(CellError::TooLarge { nelements: i64::MAX, heap_offset: 0 })
    );
}
