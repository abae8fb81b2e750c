use fits_table::bytes::ByteOrder;
use fits_table::cells::convert_column_cell;
use fits_table::columns::{Column, ScalingKind};
use fits_table::encode::{apply_transform_cell, column_transform, WriteTransform};
use fits_table::error::{CellError, InputError, TransformError, WriteError};
use fits_table::input::{
    acquire_per_column_array, determine_input_nrows, dispatch_write_input,
    extract_per_column_inputs, ArrayInfo, Names, StructField, StructInput, TableInput,
};
use fits_table::keywords::{parse_columns, ColumnKeywords, TableKeywords};
use fits_table::strips::{cell_file_offset, encode_row, encode_strip, plan_strips};

fn keywords(name: &str, tform: &str, tzero: Option<f64>) -> ColumnKeywords {
    ColumnKeywords {
        ttype: Some(name.to_string()),
        tform: Some(tform.to_string()),
        tdim: None,
        tscal: None,
        tzero: tzero.map(|t| t.to_bits()),
        tnull: None,
        tunit: None,
    }
}

fn columns(list: Vec<ColumnKeywords>, width: i64) -> Vec<Column> {
    parse_columns(&TableKeywords {
        naxis1: Some(width),
        naxis2: Some(2),
        tfields: Some(list.len() as i64),
        theap: None,
        columns: list,
    })
    .unwrap()
}

fn one(tform: &str, width: i64, tzero: Option<f64>) -> Column {
    columns(vec![keywords("c", tform, tzero)], width).remove(0)
}

fn array(shape: Vec<usize>, kind: char, itemsize: usize) -> ArrayInfo {
    let nbytes = shape.iter().product::<usize>() * itemsize;
    ArrayInfo { is_array: true, shape, kind, itemsize, contiguous: true, nbytes }
}

#[test]
fn transforms_of_columns() {
    assert_eq!(
        column_transform(&one("3I", 6, None), 'i', 2),
        Ok(WriteTransform::Identity { elem_w: 2, num_elems: 3 })
    );
    assert_eq!(
        column_transform(&one("1C", 8, None), 'c', 8),
        Ok(WriteTransform::Identity { elem_w: 4, num_elems: 2 })
    );
    assert_eq!(
        column_transform(&one("1I", 2, Some(32768.0)), 'u', 2),
        Ok(WriteTransform::UnsignedXor { elem_w: 2, num_elems: 1 })
    );
    assert_eq!(
        column_transform(&one("1I", 2, Some(32768.0)), 'i', 2),
        Err(TransformError::NeedsUnsigned { size: 2 })
    );
    assert_eq!(
        column_transform(&one("1I", 2, Some(5.0)), 'i', 2),
        Err(TransformError::Scaled)
    );
    assert_eq!(
        column_transform(&one("1I", 2, None), 'i', 4),
        Err(TransformError::NeedsKind { kind: 'i', size: 2 })
    );
    assert_eq!(
        column_transform(&one("2L", 2, None), 'b', 1),
        Ok(WriteTransform::BoolToLogical { num_bytes: 2 })
    );
    assert_eq!(column_transform(&one("2L", 2, None), 'u', 1), Err(TransformError::NeedsBool));
    assert_eq!(
        column_transform(&one("9X", 2, None), 'b', 1),
        Ok(WriteTransform::BitsPackMsb { num_bits: 9 })
    );
    assert_eq!(
        column_transform(&one("9X", 2, None), 'i', 1),
        Err(TransformError::NeedsBits { bits: 9 })
    );
    assert_eq!(
        column_transform(&one("4A", 4, None), 'S', 4),
        Ok(WriteTransform::BytesCopy { num_bytes: 4 })
    );
    assert_eq!(
        column_transform(&one("4A", 4, None), 'U', 16),
        Ok(WriteTransform::UnicodeToAscii { num_chars: 4 })
    );
    assert_eq!(
        column_transform(&one("4A", 4, None), 'U', 12),
        Err(TransformError::NeedsStrings { chars: 4 })
    );
}

#[test]
fn values_become_cells() {
    assert_eq!(
        apply_transform_cell(WriteTransform::Identity { elem_w: 2, num_elems: 2 }, &[1, 2, 3, 4]),
        Ok(vec![2, 1, 4, 3])
    );
    assert_eq!(
        apply_transform_cell(WriteTransform::UnsignedXor { elem_w: 2, num_elems: 1 }, &[1, 0]),
        Ok(vec![0x80, 1])
    );
    assert_eq!(
        apply_transform_cell(WriteTransform::BoolToLogical { num_bytes: 2 }, &[0, 1]),
        Ok(vec![b'F', b'T'])
    );
    assert_eq!(
        apply_transform_cell(
            WriteTransform::BitsPackMsb { num_bits: 9 },
            &[1, 0, 0, 0, 0, 0, 0, 1, 1]
        ),
        Ok(vec![0x81, 0x80])
    );
    assert_eq!(
        apply_transform_cell(
            WriteTransform::UnicodeToAscii { num_chars: 2 },
            &[b'h', 0, 0, 0, b'i', 0, 0, 0]
        ),
        Ok(vec![b'h', b'i'])
    );
    assert_eq!(
        apply_transform_cell(
            WriteTransform::UnicodeToAscii { num_chars: 2 },
            &[b'h', 0, 0, 0, 0xe9, 1, 0, 0]
        ),
        Err(CellError::NonAsciiChar { codepoint: 0x1e9, position: 1 })
    );
}

#[test]
fn what_is_written_reads_back() {
    let c = one("2J", 8, Some(2147483648.0));
    let value = [1, 2, 3, 4, 0xff, 0xfe, 0xfd, 0xfc];
    let t = column_transform(&c, 'u', 4).unwrap();
    let cell = apply_transform_cell(t, &value).unwrap();
    assert_eq!(
        convert_column_cell(&c, &cell, ScalingKind::UnsignedTrick, ByteOrder::Little),
        Ok(value.to_vec())
    );
    let c = one("11X", 2, None);
    let value = [1, 1, 0, 1, 0, 0, 0, 1, 0, 1, 1];
    let t = column_transform(&c, 'b', 1).unwrap();
    let cell = apply_transform_cell(t, &value).unwrap();
    assert_eq!(
        convert_column_cell(&c, &cell, ScalingKind::Unscaled, ByteOrder::Little),
        Ok(value.to_vec())
    );
}

#[test]
fn arrays_for_columns() {
    let c = one("3I", 6, None);
    assert_eq!(
        acquire_per_column_array(&array(vec![2, 3], 'i', 2), &c, 2),
        Ok((WriteTransform::Identity { elem_w: 2, num_elems: 3 }, 6))
    );
    let mut other = array(vec![2, 3], 'i', 2);
    other.is_array = false;
    assert_eq!(acquire_per_column_array(&other, &c, 2), Err(InputError::NotArray));
    assert_eq!(
        acquire_per_column_array(&array(vec![3, 3], 'i', 2), &c, 2),
        Err(InputError::FirstAxis)
    );
    assert_eq!(
        acquire_per_column_array(&array(vec![2, 2], 'i', 2), &c, 2),
        Err(InputError::CellShape)
    );
    assert_eq!(
        acquire_per_column_array(&array(vec![2, 3], 'f', 4), &c, 2),
        Err(InputError::Transform(TransformError::NeedsKind { kind: 'i', size: 2 }))
    );
    let mut strided = array(vec![2, 3], 'i', 2);
    strided.contiguous = false;
    assert_eq!(acquire_per_column_array(&strided, &c, 2), Err(InputError::NotContiguous));
    let mut short = array(vec![2, 3], 'i', 2);
    short.nbytes = 11;
    assert_eq!(
        acquire_per_column_array(&short, &c, 2),
        Err(InputError::ShortBuffer { got: 11, expected: 12 })
    );
}

fn dict(keys: &[&str], arrays: Vec<ArrayInfo>) -> TableInput {
    TableInput::Dict { keys: keys.iter().map(|k| Some(k.to_string())).collect(), arrays }
}

fn pair() -> Vec<Column> {
    columns(vec![keywords("a", "1I", None), keywords("b", "2B", None)], 4)
}

#[test]
fn columns_by_name_become_rows() {
    let cols = pair();
    let input = dict(&["b", "a"], vec![array(vec![2, 2], 'u', 1), array(vec![2], 'i', 2)]);
    assert_eq!(determine_input_nrows(&input, &Names::Absent), Ok(2));
    let p = dispatch_write_input(&input, &Names::Absent, &cols, 2, 4).unwrap();
    assert!(!p.layout_matches);
    let bufs = vec![vec![10, 11, 12, 13], vec![1, 0, 2, 0]];
    assert_eq!(
        encode_strip(&p, &cols, &bufs, 4, 0, 2, 2),
        Ok(vec![0, 1, 10, 11, 0, 2, 12, 13])
    );
    assert_eq!(encode_row(&p, &cols, &bufs, 4, 1, 2), Ok(vec![0, 2, 12, 13]));
}

fn records(fields: Vec<StructField>, len: usize, itemsize: usize) -> TableInput {
    TableInput::Records(StructInput {
        fields: Some(fields),
        len,
        contiguous: true,
        itemsize,
        nbytes: len * itemsize,
    })
}

fn record_field(name: &str, kind: char, elem: usize, shape: Vec<usize>, at: usize) -> StructField {
    let size = elem * shape.iter().product::<usize>();
    StructField { name: name.to_string(), shape, kind, elem_size: elem, offset: at, size }
}

#[test]
fn records_in_the_layout_of_the_table_are_taken_whole() {
    let cols = pair();
    let input = records(
        vec![record_field("a", 'i', 2, vec![], 0), record_field("b", 'u', 1, vec![2], 2)],
        2,
        4,
    );
    let p = dispatch_write_input(&input, &Names::Absent, &cols, 2, 4).unwrap();
    assert!(p.layout_matches);
    let bufs = vec![vec![1, 0, 10, 11, 2, 0, 12, 13]];
    assert_eq!(
        encode_strip(&p, &cols, &bufs, 4, 0, 2, 2),
        Ok(vec![0, 1, 10, 11, 0, 2, 12, 13])
    );
    // Other order of fields, and a gap between them: the same rows.
    let input = records(
        vec![record_field("b", 'u', 1, vec![2], 0), record_field("a", 'i', 2, vec![], 4)],
        2,
        6,
    );
    let p = dispatch_write_input(&input, &Names::Absent, &cols, 2, 4).unwrap();
    assert!(!p.layout_matches);
    let bufs = vec![vec![10, 11, 99, 99, 1, 0, 12, 13, 99, 99, 2, 0]];
    assert_eq!(
        encode_strip(&p, &cols, &bufs, 4, 0, 2, 2),
        Ok(vec![0, 1, 10, 11, 0, 2, 12, 13])
    );
}

#[test]
fn a_value_that_does_not_fit_names_its_cell() {
    let cols = columns(vec![keywords("a", "1I", None), keywords("s", "1A", None)], 3);
    let input = dict(&["a", "s"], vec![array(vec![2], 'i', 2), array(vec![2], 'U', 4)]);
    let p = dispatch_write_input(&input, &Names::Absent, &cols, 2, 3).unwrap();
    let bufs = vec![vec![1, 0, 2, 0], vec![b'x', 0, 0, 0, 0, 1, 0, 0]];
    assert_eq!(
        encode_row(&p, &cols, &bufs, 3, 1, 2),
        Err(WriteError::Cell {
            column: 1,
            row: 1,
            cell: CellError::NonAsciiChar { codepoint: 256, position: 0 }
        })
    );
}

#[test]
fn inputs_that_are_no_table() {
    let cols = pair();
    let give = |input: &TableInput, names: &Names| {
        dispatch_write_input(input, names, &cols, 2, 4).map(|p| p.layout_matches)
    };
    let a = || array(vec![2], 'i', 2);
    let b = || array(vec![2, 2], 'u', 1);
    let texts = |v: &[&str]| Names::Texts(v.iter().map(|s| s.to_string()).collect());
    assert_eq!(
        give(&dict(&["a", "b"], vec![a(), b()]), &texts(&["a"])),
        Err(WriteError::NamesWithDict)
    );
    assert_eq!(
        give(&TableInput::List { arrays: vec![a(), b()] }, &Names::Absent),
        Err(WriteError::NamesMissing)
    );
    assert_eq!(
        give(&TableInput::List { arrays: vec![a(), b()] }, &Names::NotTexts),
        Err(WriteError::NamesNotTexts)
    );
    assert_eq!(
        give(&TableInput::List { arrays: vec![a(), b()] }, &texts(&["a"])),
        Err(WriteError::NameCount { arrays: 2, names: 1 })
    );
    assert_eq!(
        give(&TableInput::List { arrays: vec![a(), a(), b()] }, &texts(&["a", "a", "b"])),
        Err(WriteError::DuplicateName { at: 1 })
    );
    assert_eq!(
        give(&dict(&["a", "b", "c"], vec![a(), b(), a()]), &Names::Absent),
        Err(WriteError::ExtraName { at: 2 })
    );
    assert_eq!(
        give(&dict(&["a"], vec![a()]), &Names::Absent),
        Err(WriteError::MissingColumn { column: 1 })
    );
    let key = TableInput::Dict { keys: vec![None], arrays: vec![a()] };
    assert_eq!(give(&key, &Names::Absent), Err(WriteError::KeyNotText { at: 0 }));
    assert_eq!(
        give(&dict(&["a", "b"], vec![array(vec![3], 'i', 2), b()]), &Names::Absent),
        Err(WriteError::Column { column: 0, error: InputError::FirstAxis })
    );
    let plain = TableInput::Records(StructInput {
        fields: None,
        len: 2,
        contiguous: true,
        itemsize: 4,
        nbytes: 8,
    });
    assert_eq!(give(&plain, &Names::Absent), Err(WriteError::NotStructured));
    assert_eq!(give(&plain, &texts(&["a"])), Err(WriteError::NamesWithArray));
    let few = records(vec![record_field("a", 'i', 2, vec![], 0)], 2, 2);
    assert_eq!(
        give(&few, &Names::Absent),
        Err(WriteError::ColumnCount { got: 1, want: 2 })
    );
    let long = records(
        vec![record_field("a", 'i', 2, vec![], 0), record_field("b", 'u', 1, vec![2], 2)],
        3,
        4,
    );
    assert_eq!(give(&long, &Names::Absent), Err(WriteError::RowCount { got: 3, want: 2 }));
    assert_eq!(
        give(&TableInput::Other { len: 2 }, &Names::Absent),
        Err(WriteError::NotTableData)
    );
    assert_eq!(
        determine_input_nrows(&dict(&[], vec![]), &Names::Absent),
        Err(WriteError::EmptyData)
    );
}

#[test]
fn arrays_are_put_into_the_order_of_columns() {
    let cols = pair();
    let input = dict(&["b", "a"], vec![array(vec![2, 2], 'u', 1), array(vec![2], 'i', 2)]);
    assert_eq!(extract_per_column_inputs(&input, &Names::Absent, &cols), Ok(vec![1, 0]));
    let missing = dict(&["b"], vec![array(vec![2, 2], 'u', 1)]);
    assert_eq!(
        extract_per_column_inputs(&missing, &Names::Absent, &cols),
        Err(WriteError::MissingColumn { column: 0 })
    );
}

#[test]
fn strips_cover_the_rows() {
    let strips = plan_strips(5, 600_000, 1000).unwrap();
    let parts: Vec<(usize, usize, u64)> =
        strips.iter().map(|s| (s.first, s.rows, s.offset)).collect();
    assert_eq!(
        parts,
        vec![
            (0, 1, 1000),
            (1, 1, 601_000),
            (2, 1, 1_201_000),
            (3, 1, 1_801_000),
            (4, 1, 2_401_000)
        ]
    );
    assert_eq!(cell_file_offset(2880, 3, 10, 4), Some(2914));
    assert_eq!(cell_file_offset(u64::MAX, 1, 1, 0), None);
}

#[test]
fn inputs_whose_bytes_are_not_there() {
    let cols = pair();
    let fields =
        || vec![record_field("a", 'i', 2, vec![], 0), record_field("b", 'u', 1, vec![2], 2)];
    let give = |contiguous: bool, nbytes: usize| {
        let s = StructInput { fields: Some(fields()), len: 2, contiguous, itemsize: 4, nbytes };
        dispatch_write_input(&TableInput::Records(s), &Names::Absent, &cols, 2, 4)
            .map(|p| p.layout_matches)
    };
    assert_eq!(give(true, 8), Ok(true));
    assert_eq!(give(false, 8), Err(WriteError::NotContiguous));
    assert_eq!(give(true, 7), Err(WriteError::ShortBuffer { got: 7, expected: 8 }));
    let many = ArrayInfo {
        is_array: true,
        shape: vec![usize::MAX],
        kind: 'i',
        itemsize: 2,
        contiguous: true,
        nbytes: 0,
    };
    assert_eq!(
        acquire_per_column_array(&many, &one("1I", 2, None), usize::MAX),
        Err(InputError::TooLarge)
    );
}

#[test]
fn a_field_that_is_no_column_is_refused() {
    let cols = pair();
    let extra = records(
        vec![
            record_field("a", 'i', 2, vec![], 0),
            record_field("b", 'u', 1, vec![2], 2),
            record_field("c", 'u', 1, vec![], 4),
        ],
        2,
        5,
    );
    assert_eq!(
        extract_per_column_inputs(&extra, &Names::Absent, &cols),
        Err(WriteError::ExtraName { at: 2 })
    );
}
