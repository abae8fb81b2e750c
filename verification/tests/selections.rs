use fits_table::assign::{
    cell_input_type, check_column_subset, check_one_column, coerce_to_len1_record,
    encode_column_cell, encode_single_cell, find_cell, plan_set_column, plan_set_columns,
    prepare_rows, target_of_list, target_of_row, target_of_slice, ColumnWrite, RecordInfo,
    RowTarget, ValueInfo,
};
use fits_table::columns::{Column, Descriptor};
use fits_table::encode::WriteTransform;
use fits_table::error::{
    AssignError, CellError, InputError, KeyError, RowError, TransformError, VarError, WriteError,
};
use fits_table::fields::NumpyType;
use fits_table::heap::read_descriptor;
use fits_table::input::{ArrayInfo, StructField, StructInput};
use fits_table::iter::{make_table_iter, IterStep};
use fits_table::keys::{
    classify_setitem_key, classify_table_key, resolve_rows_key, Key, KeyItem, RowsKey, SetItemKey,
    TableKey,
};
use fits_table::keywords::{parse_columns, ColumnKeywords, TableKeywords};
use fits_table::layout::Extent;
use fits_table::plans::{setitem_cell_vla, setitem_single_column_vla, TablePlace};
use fits_table::repr::{column_repr_info, header_repr, table_repr};
use fits_table::vla::VarInput;

fn keywords(name: &str, tform: &str) -> ColumnKeywords {
    ColumnKeywords {
        ttype: Some(name.to_string()),
        tform: Some(tform.to_string()),
        tdim: None,
        tscal: None,
        tzero: None,
        tnull: None,
        tunit: None,
    }
}

fn columns(list: Vec<ColumnKeywords>, width: i64) -> Vec<Column> {
    parse_columns(&TableKeywords {
        naxis1: Some(width),
        naxis2: Some(2),
        tfields: Some(list.len() as i64),
        theap: None,
        columns: list,
    })
    .unwrap()
}

fn array(shape: Vec<usize>, kind: char, itemsize: usize) -> ArrayInfo {
    let nbytes = shape.iter().product::<usize>() * itemsize;
    ArrayInfo { is_array: true, shape, kind, itemsize, contiguous: true, nbytes }
}

fn text(s: &str) -> KeyItem {
    KeyItem::Text(s.to_string())
}

fn several(items: Vec<KeyItem>) -> Key {
    Key::Sequence { items, tuple: false }
}

#[test]
fn keys_of_a_read() {
    assert!(matches!(classify_table_key(&Key::Slice), Ok(TableKey::Rows)));
    assert!(matches!(
        classify_table_key(&Key::Item(KeyItem::Int(-3))),
        Ok(TableKey::SingleRow(-3))
    ));
    assert!(matches!(
        classify_table_key(&Key::Item(KeyItem::Bytes(b"ra".to_vec()))),
        Ok(TableKey::SingleColumn(s)) if s == "ra"
    ));
    assert!(matches!(
        classify_table_key(&several(vec![text("a"), KeyItem::Bytes(b"b".to_vec())])),
        Ok(TableKey::MultiColumns(v)) if v == vec!["a".to_string(), "b".to_string()]
    ));
    assert!(matches!(
        classify_table_key(&several(vec![KeyItem::Int(1), text("a")])),
        Ok(TableKey::Rows)
    ));
    let err = |k: Key| classify_table_key(&k).map(|_| ()).unwrap_err();
    assert_eq!(err(Key::Item(KeyItem::Bool)), KeyError::NotKey);
    assert_eq!(err(Key::Item(KeyItem::Other)), KeyError::NotKey);
    assert_eq!(err(Key::Item(KeyItem::Bytes(vec![200]))), KeyError::NonAsciiName);
    assert_eq!(err(several(vec![])), KeyError::EmptySequence);
    assert_eq!(err(several(vec![text("a"), KeyItem::Int(1)])), KeyError::MixedNames);
    assert_eq!(err(several(vec![KeyItem::Bool])), KeyError::NeitherRowsNorColumns);
}

#[test]
fn keys_of_a_write() {
    assert!(matches!(classify_setitem_key(&Key::Slice), Ok(SetItemKey::RowSlice)));
    let pair = |a: KeyItem, b: KeyItem| Key::Sequence { items: vec![a, b], tuple: true };
    assert!(matches!(
        classify_setitem_key(&pair(KeyItem::Int(4), text("a"))),
        Ok(SetItemKey::Cell(4, s)) if s == "a"
    ));
    assert!(matches!(
        classify_setitem_key(&several(vec![KeyItem::Int(4), KeyItem::Int(-1)])),
        Ok(SetItemKey::FancyRows(v)) if v == vec![4, -1]
    ));
    assert!(matches!(
        classify_setitem_key(&Key::Item(text("a"))),
        Ok(SetItemKey::SingleColumn(s)) if s == "a"
    ));
    assert!(matches!(
        classify_setitem_key(&Key::Item(KeyItem::Int(0))),
        Ok(SetItemKey::SingleRow(0))
    ));
    assert!(matches!(
        classify_setitem_key(&several(vec![text("a")])),
        Ok(SetItemKey::MultiColumns(v)) if v == vec!["a".to_string()]
    ));
    let err = |k: Key| classify_setitem_key(&k).map(|_| ()).unwrap_err();
    assert_eq!(err(pair(KeyItem::Bool, text("a"))), KeyError::PairNotCell);
    assert_eq!(err(pair(text("a"), text("b"))), KeyError::PairNotCell);
    assert_eq!(err(pair(KeyItem::Int(1), KeyItem::Bytes(vec![255]))), KeyError::NonAsciiName);
    assert_eq!(err(several(vec![KeyItem::Int(1), KeyItem::Bool])), KeyError::BoolRow);
    assert_eq!(err(several(vec![KeyItem::Int(1), text("a")])), KeyError::MixedRows);
    assert_eq!(err(several(vec![])), KeyError::EmptySequence);
    assert_eq!(err(several(vec![KeyItem::Other])), KeyError::NeitherRowsNorColumns);
}

#[test]
fn keys_of_rows() {
    assert_eq!(
        resolve_rows_key(&RowsKey::Slice { start: 3, stop: -1, step: -2 }, 4),
        Ok((vec![3, 1], false))
    );
    assert_eq!(resolve_rows_key(&RowsKey::Item(KeyItem::Int(-1)), 4), Ok((vec![3], true)));
    assert_eq!(
        resolve_rows_key(
            &RowsKey::Sequence(vec![KeyItem::Int(0), KeyItem::Int(0), KeyItem::Int(-4)]),
            4
        ),
        Ok((vec![0, 0, 0], false))
    );
    let err = |k: RowsKey| resolve_rows_key(&k, 4).unwrap_err();
    assert_eq!(err(RowsKey::Item(KeyItem::Bool)), KeyError::NotRows);
    assert_eq!(
        err(RowsKey::Item(KeyItem::Int(4))),
        KeyError::Row(RowError::OutOfRange { index: 4, nrows: 4 })
    );
    assert_eq!(err(RowsKey::Sequence(vec![KeyItem::Bool])), KeyError::BoolRow);
    assert_eq!(err(RowsKey::Sequence(vec![text("a")])), KeyError::MixedRows);
    assert_eq!(
        err(RowsKey::Slice { start: 0, stop: 4, step: 0 }),
        KeyError::Row(RowError::ZeroStep)
    );
}

fn record(shape: Vec<usize>) -> RecordInfo {
    RecordInfo { is_record: true, structured: true, shape }
}

#[test]
fn one_record_for_one_row() {
    assert_eq!(coerce_to_len1_record(&record(vec![])), Ok(true));
    assert_eq!(coerce_to_len1_record(&record(vec![1])), Ok(false));
    assert_eq!(coerce_to_len1_record(&record(vec![2])), Err(AssignError::NotOneRecord));
    assert_eq!(coerce_to_len1_record(&record(vec![1, 1])), Err(AssignError::NotOneRecord));
    let plain = RecordInfo { is_record: true, structured: false, shape: vec![] };
    assert_eq!(coerce_to_len1_record(&plain), Err(AssignError::RecordNotStructured));
    let other = RecordInfo { is_record: false, structured: false, shape: vec![] };
    assert_eq!(coerce_to_len1_record(&other), Err(AssignError::NotRecord));
    assert_eq!(target_of_row(-1, 5, &record(vec![])), Ok(4));
    assert_eq!(
        target_of_row(5, 5, &other),
        Err(AssignError::Row { row: RowError::OutOfRange { index: 5, nrows: 5 } })
    );
}

fn value(len: usize) -> ValueInfo {
    ValueInfo { is_array: true, len: Some(len) }
}

#[test]
fn rows_of_a_slice_that_are_written() {
    let slice = |start: i64, stop: i64, step: i64, v: ValueInfo, heap: bool| {
        target_of_slice(start, stop, step, 10, v, heap)
    };
    assert!(matches!(
        slice(2, 6, 1, value(4), false),
        Ok(Some(RowTarget::Contiguous { first: 2, count: 4 }))
    ));
    assert!(matches!(
        slice(1, 8, 3, value(3), true),
        Ok(Some(RowTarget::Scattered(v))) if v == vec![1, 4, 7]
    ));
    assert!(matches!(slice(3, 3, 1, value(0), false), Ok(None)));
    let err = |r: Result<Option<RowTarget>, AssignError>| r.map(|_| ()).unwrap_err();
    assert_eq!(err(slice(6, 2, -1, value(4), false)), AssignError::Step);
    assert_eq!(err(slice(3, 3, 1, value(2), false)), AssignError::NoRows { got: 2 });
    assert_eq!(err(slice(3, 3, 1, value(2), true)), AssignError::NoRows { got: 2 });
    let no = ValueInfo { is_array: false, len: None };
    assert_eq!(err(slice(3, 3, 1, no, false)), AssignError::NotArray);
    assert!(matches!(slice(3, 3, 1, no, true), Ok(None)));
    assert_eq!(err(slice(3, 5, 1, no, true)), AssignError::NotArray);
    assert_eq!(
        err(slice(3, 5, 1, value(3), true)),
        AssignError::Length { got: 3, want: 2 }
    );
    let scalar = ValueInfo { is_array: true, len: None };
    assert_eq!(err(slice(3, 5, 1, scalar, true)), AssignError::NotSized);
}

#[test]
fn rows_of_a_list_that_are_written() {
    let list = |rows: Vec<i64>, v: ValueInfo, heap: bool| target_of_list(&rows, 4, v, heap);
    assert!(matches!(
        list(vec![3, -4, 3], value(3), false),
        Ok(Some(RowTarget::Scattered(v))) if v == vec![3, 0, 3]
    ));
    assert!(matches!(list(vec![], value(0), false), Ok(None)));
    let err = |r: Result<Option<RowTarget>, AssignError>| r.map(|_| ()).unwrap_err();
    let no = ValueInfo { is_array: false, len: None };
    let out = AssignError::Row { row: RowError::OutOfRange { index: 9, nrows: 4 } };
    assert_eq!(err(list(vec![9], no, false)), out);
    assert_eq!(err(list(vec![9], no, true)), AssignError::NotArray);
    assert_eq!(err(list(vec![9], value(1), true)), out);
    assert_eq!(
        err(list(vec![1, 2], value(1), false)),
        AssignError::Length { got: 1, want: 2 }
    );
    assert_eq!(err(list(vec![], value(1), false)), AssignError::NoRows { got: 1 });
}

fn plain() -> Vec<Column> {
    let mut u = keywords("u", "1I");
    u.tzero = Some(32768f64.to_bits());
    columns(vec![keywords("a", "2B"), u, keywords("maß", "1PB")], 12)
}

#[test]
fn records_for_rows_are_checked() {
    let cols = columns(vec![keywords("a", "2B")], 2);
    let s = |len: usize| StructInput {
        fields: Some(vec![StructField {
            name: "a".to_string(),
            shape: vec![2],
            kind: 'u',
            elem_size: 1,
            offset: 0,
            size: 2,
        }]),
        len,
        contiguous: true,
        itemsize: 2,
        nbytes: 2 * len,
    };
    assert!(prepare_rows(&s(3), &cols, 3, 2).unwrap().layout_matches);
    assert_eq!(
        prepare_rows(&s(3), &cols, 2, 2).map(|p| p.layout_matches),
        Err(AssignError::Write { write: WriteError::RowCount { got: 3, want: 2 } })
    );
}

#[test]
fn columns_that_are_written() {
    let cols = plain();
    assert_eq!(
        plan_set_column(&cols, "A", &array(vec![4, 2], 'u', 1), 4),
        Ok(ColumnWrite::Fixed {
            column: 0,
            transform: WriteTransform::Identity { elem_w: 1, num_elems: 2 },
            size: 2
        })
    );
    assert_eq!(
        plan_set_column(&cols, "MASS", &array(vec![4], 'O', 8), 4),
        Ok(ColumnWrite::Heap { column: 2 })
    );
    assert_eq!(
        plan_set_column(&cols, "b", &array(vec![4], 'O', 8), 4),
        Err(AssignError::UnknownColumn)
    );
    assert_eq!(
        plan_set_column(&cols, "a", &array(vec![3, 2], 'u', 1), 4),
        Err(AssignError::Input { input: InputError::FirstAxis })
    );
}

fn names(list: &[&str]) -> Vec<String> {
    list.iter().map(|s| s.to_string()).collect()
}

#[test]
fn several_columns_that_are_written() {
    let cols = plain();
    let set = |n: &[&str], f: Option<&[&str]>, v: ValueInfo| {
        plan_set_columns(&cols, &names(n), &f.map(|l| names(l)), v, 4)
    };
    assert_eq!(set(&["Mass", "A"], Some(&["a", "maß"]), value(4)), Ok(vec![2, 0]));
    assert_eq!(set(&[], Some(&["a"]), value(4)), Err(AssignError::EmptyNames));
    let no = ValueInfo { is_array: false, len: Some(4) };
    assert_eq!(set(&["a"], Some(&["a"]), no), Err(AssignError::NotArray));
    assert_eq!(
        set(&["a"], Some(&["a"]), value(3)),
        Err(AssignError::Length { got: 3, want: 4 })
    );
    assert_eq!(set(&["a"], None, value(4)), Err(AssignError::NotStructured));
    assert_eq!(
        set(&["a", "A"], Some(&["a"]), value(4)),
        Err(AssignError::DuplicateName { at: 1 })
    );
    assert_eq!(
        set(&["a", "z"], Some(&["a", "z"]), value(4)),
        Err(AssignError::UnknownName { at: 1 })
    );
    assert_eq!(
        set(&["a", "u"], Some(&["a"]), value(4)),
        Err(AssignError::MissingField { at: 1 })
    );
}

#[test]
fn columns_in_some_rows() {
    let one = |count: usize, single: bool, v: ValueInfo| check_one_column(count, single, v);
    assert_eq!(one(0, false, value(9)), Ok(false));
    assert_eq!(one(1, true, ValueInfo { is_array: false, len: None }), Ok(true));
    assert_eq!(one(2, false, value(2)), Ok(true));
    assert_eq!(one(2, false, value(3)), Err(AssignError::Length { got: 3, want: 2 }));
    assert_eq!(
        one(2, false, ValueInfo { is_array: false, len: None }),
        Err(AssignError::NotSized)
    );
    let subset = |n: &[&str], f: Option<&[&str]>, count: usize, single: bool, v: ValueInfo| {
        check_column_subset(&names(n), &f.map(|l| names(l)), count, single, &record(vec![]), v)
    };
    assert_eq!(subset(&["A"], Some(&["a"]), 2, false, value(2)), Ok(true));
    assert_eq!(subset(&["a"], Some(&["a"]), 1, true, value(7)), Ok(true));
    assert_eq!(subset(&[], Some(&["a"]), 1, true, value(7)), Err(AssignError::EmptyNames));
    assert_eq!(subset(&["a"], None, 0, false, value(7)), Ok(false));
    assert_eq!(subset(&["a"], None, 2, false, value(2)), Err(AssignError::NotStructured));
    assert_eq!(
        subset(&["a", "b"], Some(&["a"]), 2, false, value(2)),
        Err(AssignError::MissingField { at: 1 })
    );
    assert_eq!(
        subset(&["a"], Some(&["a"]), 2, false, ValueInfo { is_array: false, len: Some(2) }),
        Err(AssignError::NotArray)
    );
}

#[test]
fn single_cells() {
    let cols = plain();
    assert_eq!(find_cell(&cols, -1, 4, "U"), Ok((3, 1)));
    assert_eq!(find_cell(&cols, 0, 4, "zz"), Err(AssignError::UnknownColumn));
    assert_eq!(
        find_cell(&cols, 4, 4, "zz"),
        Err(AssignError::Row { row: RowError::OutOfRange { index: 4, nrows: 4 } })
    );
    assert_eq!(cell_input_type(&cols[0]), Some((NumpyType::U1, vec![1, 2])));
    assert_eq!(cell_input_type(&cols[1]), Some((NumpyType::U2, vec![1])));
    assert_eq!(
        encode_single_cell(&cols[1], &array(vec![1], 'u', 2), &vec![5, 0]),
        Ok(vec![0x80, 5])
    );
    assert_eq!(
        encode_single_cell(&cols[1], &array(vec![1], 'i', 2), &vec![5, 0]),
        Err(AssignError::Input {
            input: InputError::Transform(TransformError::NeedsUnsigned { size: 2 })
        })
    );
    let s = columns(vec![keywords("s", "1A")], 1);
    assert_eq!(
        encode_single_cell(&s[0], &array(vec![1], 'U', 4), &vec![0, 2, 0, 0]),
        Err(AssignError::Cell { cell: CellError::NonAsciiChar { codepoint: 512, position: 0 } })
    );
    let t = WriteTransform::Identity { elem_w: 2, num_elems: 1 };
    assert_eq!(encode_column_cell(t, &vec![1, 0, 2, 0], 2, 1), Ok(vec![0, 2]));
}

fn place() -> TablePlace {
    TablePlace { data_offset: 2880, file_len: 5760, nrows: 2, row_width: 12, pcount: 30 }
}

fn bytes(b: Vec<u8>) -> VarInput {
    VarInput::Array { shape: vec![b.len()], kind: 'u', itemsize: 1, contiguous: true, bytes: b }
}

#[test]
fn a_cell_in_the_heap_is_overwritten() {
    let cols = plain();
    let p = setitem_cell_vla(&cols[2], Descriptor::P, 1, &bytes(vec![7, 8]), place()).unwrap();
    assert_eq!(p.write.bytes, vec![7, 8]);
    assert_eq!(read_descriptor(Descriptor::P, &p.write.descriptor), (2, 30));
    assert_eq!(p.write.heap_end, 32);
    assert_eq!(p.layout.heap_at, 2880 + 24 + 30);
    assert_eq!(p.layout.extent, Extent::Keep);
    assert_eq!(p.descriptor_at, 2880 + 12 + 4);
    let r = setitem_cell_vla(&cols[2], Descriptor::P, 1, &VarInput::Other, place());
    assert_eq!(r.map(|_| ()), Err(AssignError::Heap { heap: VarError::NotArray }));
    let full = TablePlace { pcount: u64::MAX, ..place() };
    let r = setitem_cell_vla(&cols[2], Descriptor::P, 1, &bytes(vec![7]), full);
    assert_eq!(r.map(|_| ()), Err(AssignError::TooLarge));
}

#[test]
fn a_column_in_the_heap_is_overwritten() {
    let col = || plain().remove(2);
    let cells = || vec![vec![bytes(vec![7, 8]), bytes(vec![9])]];
    let set = |a: ArrayInfo, c: Vec<Vec<VarInput>>| {
        setitem_single_column_vla(col(), Descriptor::P, &a, &c, place())
    };
    let p = set(array(vec![2], 'O', 8), cells()).unwrap();
    assert_eq!(p.write.bytes, vec![7, 8, 9]);
    assert_eq!(p.write.heap_end, 33);
    assert_eq!(read_descriptor(Descriptor::P, &p.write.descriptors[0..8]), (2, 30));
    assert_eq!(read_descriptor(Descriptor::P, &p.write.descriptors[8..16]), (1, 32));
    assert_eq!(p.layout.heap_at, 2880 + 24 + 30);
    let err = |a: ArrayInfo, c: Vec<Vec<VarInput>>| set(a, c).map(|_| ()).unwrap_err();
    let mut no = array(vec![2], 'O', 8);
    no.is_array = false;
    assert_eq!(err(no, cells()), AssignError::NotArray);
    assert_eq!(
        err(array(vec![1], 'O', 8), vec![vec![bytes(vec![1])]]),
        AssignError::Axis { nrows: 2 }
    );
    assert_eq!(err(array(vec![2], 'u', 1), cells()), AssignError::NotObjects { kind: 'u' });
    assert_eq!(
        err(array(vec![2], 'O', 8), vec![vec![bytes(vec![1]), VarInput::Other]]),
        AssignError::Write {
            write: WriteError::HeapCell { column: 0, row: 1, heap: VarError::NotArray }
        }
    );
}

#[test]
fn rows_come_one_by_one() {
    // Three rows at a time fit into the buffer.
    let mut it = make_table_iter(7, None, 8388608 / 3).unwrap();
    let mut seen: Vec<usize> = Vec::new();
    let mut read: Vec<(usize, usize)> = Vec::new();
    let mut first = 0;
    loop {
        match it.next_step() {
            IterStep::Done => break,
            IterStep::Read { lo, hi } => {
                read.push((lo, hi));
                first = lo;
                it.filled(hi);
            }
            IterStep::Row { place } => {
                seen.push(first + place);
                it.taken();
            }
        }
    }
    assert_eq!(read, vec![(0, 3), (3, 6), (6, 7)]);
    assert_eq!(seen, vec![0, 1, 2, 3, 4, 5, 6]);
}

#[test]
fn rows_come_in_chunks() {
    let mut it = make_table_iter(5, Some(2), 10).unwrap();
    let mut read: Vec<(usize, usize)> = Vec::new();
    while let IterStep::Read { lo, hi } = it.next_step() {
        read.push((lo, hi));
        it.filled(hi);
    }
    assert_eq!(read, vec![(0, 2), (2, 4), (4, 5)]);
    assert_eq!(it.next_step(), IterStep::Done);
    assert_eq!(it.next_step(), IterStep::Done);
    // As many chunks as fit, and no empty one behind them.
    let mut it = make_table_iter(6, Some(3), 10).unwrap();
    assert_eq!(it.next_step(), IterStep::Read { lo: 0, hi: 3 });
    it.filled(3);
    assert_eq!(it.next_step(), IterStep::Read { lo: 3, hi: 6 });
    it.filled(6);
    assert_eq!(it.next_step(), IterStep::Done);
    let all = make_table_iter(6, Some(usize::MAX), 10).unwrap();
    assert_eq!(all.next_step(), IterStep::Read { lo: 0, hi: 6 });
    assert!(matches!(make_table_iter(5, Some(0), 10), Err(RowError::ZeroChunk)));
    assert_eq!(make_table_iter(0, None, 0).unwrap().next_step(), IterStep::Done);
    let wide = make_table_iter(2, None, usize::MAX).unwrap();
    assert_eq!(wide.next_step(), IterStep::Read { lo: 0, hi: 1 });
}

#[test]
fn a_table_in_words() {
    let mut flux = keywords("flux", "6E");
    flux.tdim = Some("(3,2)".to_string());
    flux.tunit = Some("Jy".to_string());
    let mut u = keywords("u", "1I");
    u.tzero = Some(32768f64.to_bits());
    let cols = columns(
        vec![flux, u, keywords("name", "8A"), keywords("list", "1PJ"), keywords("x", "1QX")],
        24 + 2 + 8 + 8 + 16,
    );
    assert_eq!(
        column_repr_info(&cols[0]),
        ("f4".to_string(), Some("array[2,3]".to_string()))
    );
    assert_eq!(column_repr_info(&cols[1]), ("u2".to_string(), None));
    assert_eq!(
        table_repr("cat.fits", 1, &Some("SCI".to_string()), 12, &cols),
        Some(
            "  file: cat.fits\n  extension: 1\n  type: BINARY_TBL\n  extname: SCI\n  rows: 12\n  \
             column info:\n    flux    f4  array[2,3]  (Jy)\n    u       u2\n    name    U8\n    \
             list    i4  array[var]\n    x       X  array[var]\n"
                .to_string()
        )
    );
    assert_eq!(
        table_repr("f", 2, &None, 0, &[]),
        Some("  file: f\n  extension: 2\n  type: BINARY_TBL\n  rows: 0\n  column info:\n".to_string())
    );
}

#[test]
fn a_header_that_is_no_table_is_put_into_words() {
    let broken = TableKeywords {
        naxis1: Some(4),
        naxis2: Some(3),
        tfields: Some(1),
        theap: None,
        columns: vec![keywords("a", "1Z")],
    };
    assert_eq!(
        header_repr("f", 2, &None, &broken),
        "  file: f\n  extension: 2\n  type: BINARY_TBL\n  rows: 3\n  column info:\n"
    );
}
