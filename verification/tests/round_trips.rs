use fits_table::bytes::ByteOrder;
use fits_table::columns::Descriptor;
use fits_table::heap::{build_var_cell_value, heap_read, VarCell, VarValue};
use fits_table::heapwrite::encode_main_rows;
use fits_table::input::{dispatch_write_input, ArrayInfo, Names, StructField, StructInput, TableInput};
use fits_table::keywords::{parse_table_meta, ColumnKeywords, TableKeywords, TableMeta};
use fits_table::plans::{append_vla_aware, setitem_cell_vla, write_vla_aware, TablePlace};
use fits_table::read::{convert_rows, plan_read, FieldPlace};
use fits_table::rows::RowSelector;
use fits_table::runs::plan_chunks;
use fits_table::strips::{encode_row, encode_strip};
use fits_table::vla::VarInput;

fn keywords(name: &str, tform: &str) -> ColumnKeywords {
    ColumnKeywords {
        ttype: Some(name.to_string()),
        tform: Some(tform.to_string()),
        tdim: None,
        tscal: None,
        tzero: None,
        tnull: None,
        tunit: None,
    }
}

fn meta(columns: Vec<ColumnKeywords>, naxis1: i64, naxis2: i64) -> TableMeta {
    parse_table_meta(&TableKeywords {
        naxis1: Some(naxis1),
        naxis2: Some(naxis2),
        tfields: Some(columns.len() as i64),
        theap: None,
        columns,
    })
    .unwrap()
}

/// A number and a string of three characters.
fn plain() -> TableMeta {
    meta(vec![keywords("n", "1I"), keywords("s", "3A")], 5, 2)
}

/// Reads a table of a number and a string whole: records of 14 bytes.
fn read_plain(m: &TableMeta, main: &[u8], sel: &Option<RowSelector>) -> Vec<u8> {
    let plan = plan_read(m, sel, &None, true, false).unwrap();
    let places = vec![FieldPlace { offset: 0, width: 2 }, FieldPlace { offset: 2, width: 12 }];
    let mut out = vec![0u8; plan.n_out * 14];
    let mut cells: Vec<VarCell> = Vec::new();
    for c in plan_chunks(&plan.runs, 1) {
        let bytes = &main[c.start * 5..(c.start + c.rows) * 5];
        convert_rows(&plan, &places, 14, 5, c, bytes, ByteOrder::Little, &mut out, &mut cells)
            .unwrap();
    }
    out
}

fn wide(s: &[u8; 3]) -> Vec<u8> {
    s.iter().flat_map(|&b| [b, 0, 0, 0]).collect()
}

fn plain_records(len: usize) -> TableInput {
    let field = |name: &str, kind: char, size: usize, offset: usize| StructField {
        name: name.to_string(),
        shape: vec![],
        kind,
        elem_size: size,
        offset,
        size,
    };
    TableInput::Records(StructInput {
        fields: Some(vec![field("n", 'i', 2, 0), field("s", 'S', 3, 2)]),
        len,
        contiguous: true,
        itemsize: 5,
        nbytes: 5 * len,
    })
}

#[test]
fn a_table_that_is_written_reads_back() {
    let m = plain();
    let bufs = vec![vec![1, 0, b'a', b'b', b'c', 2, 1, b'z', 0, 0]];
    let p = dispatch_write_input(&plain_records(2), &Names::Absent, &m.columns, 2, 5).unwrap();
    let main = encode_strip(&p, &m.columns, &bufs, 5, 0, 2, 2).unwrap();
    let want: Vec<u8> = [vec![1, 0], wide(b"abc"), vec![2, 1], wide(b"z\0\0")].concat();
    assert_eq!(read_plain(&m, &main, &None), want);
    // The slice of all rows is the same.
    let all = Some(RowSelector::Slice { start: 0, stop: 2, step: 1 });
    assert_eq!(read_plain(&m, &main, &all), want);
}

#[test]
fn a_row_that_is_overwritten_reads_back_and_the_others_stay() {
    let m = plain();
    let mut main = vec![0, 1, b'a', b'b', b'c', 0, 2, b'd', b'e', b'f'];
    let bufs = vec![vec![9, 0, b'x', b'y', 0]];
    let p = dispatch_write_input(&plain_records(1), &Names::Absent, &m.columns, 1, 5).unwrap();
    let row = encode_row(&p, &m.columns, &bufs, 5, 0, 1).unwrap();
    main[5..10].copy_from_slice(&row);
    let want: Vec<u8> = [vec![1, 0], wide(b"abc"), vec![9, 0], wide(b"xy\0")].concat();
    assert_eq!(read_plain(&m, &main, &None), want);
}

#[test]
fn no_rows_are_read_from_a_table_without_any() {
    let m = meta(vec![keywords("n", "1I"), keywords("s", "3A")], 5, 0);
    assert_eq!(read_plain(&m, &[], &None), Vec::<u8>::new());
    let all = Some(RowSelector::Slice { start: 0, stop: 0, step: 1 });
    assert_eq!(read_plain(&m, &[], &all), Vec::<u8>::new());
}

/// A number, a list of truth values as bits and a text.
fn mixed(nrows: i64) -> TableMeta {
    meta(vec![keywords("n", "1I"), keywords("b", "1PX(9)"), keywords("s", "1PA")], 18, nrows)
}

/// What a read of a table with a heap gives: the numbers, and the cells in the
/// heap by row and column.
fn read_mixed(m: &TableMeta, main: &[u8], heap: &[u8]) -> (Vec<u8>, Vec<(usize, usize, VarValue)>) {
    let plan = plan_read(m, &None, &None, true, false).unwrap();
    let places = vec![
        FieldPlace { offset: 0, width: 2 },
        FieldPlace { offset: 2, width: 8 },
        FieldPlace { offset: 10, width: 8 },
    ];
    let mut out = vec![0u8; plan.n_out * 18];
    let mut cells: Vec<VarCell> = Vec::new();
    for c in plan_chunks(&plan.runs, 100) {
        let bytes = &main[c.start * 18..(c.start + c.rows) * 18];
        convert_rows(&plan, &places, 18, 18, c, bytes, ByteOrder::Little, &mut out, &mut cells)
            .unwrap();
    }
    let numbers = out.chunks(18).flat_map(|r| [r[0], r[1]]).collect();
    let values = cells
        .iter()
        .map(|v| {
            let col = &plan.columns[v.column];
            let (at, len) = heap_read(col.letter, v.nelements, v.heap_offset, 0).unwrap();
            let bytes = &heap[at as usize..at as usize + len];
            let value = build_var_cell_value(
                col.letter,
                bytes,
                v.nelements as usize,
                false,
                plan.kinds[v.column],
                ByteOrder::Little,
            )
            .unwrap();
            (v.output_row, v.column, value)
        })
        .collect();
    (numbers, values)
}

fn array(rows: usize, kind: char, itemsize: usize) -> ArrayInfo {
    ArrayInfo {
        is_array: true,
        shape: vec![rows],
        kind,
        itemsize,
        contiguous: true,
        nbytes: rows * itemsize,
    }
}

fn arrays(rows: usize) -> Vec<ArrayInfo> {
    vec![array(rows, 'i', 2), array(rows, 'O', 8), array(rows, 'O', 8)]
}

fn truths(v: &[u8]) -> VarInput {
    VarInput::Array {
        shape: vec![v.len()],
        kind: 'b',
        itemsize: 1,
        contiguous: true,
        bytes: v.to_vec(),
    }
}

fn is_text(v: &VarValue, want: &str) -> bool {
    matches!(v, VarValue::Text(s) if s == want)
}

fn is_truths(v: &VarValue, want: &[u8]) -> bool {
    matches!(v, VarValue::Array { bytes, .. } if bytes == want)
}

#[test]
fn a_table_with_a_heap_reads_back_after_every_change() {
    let m = mixed(2);
    let place = TablePlace { data_offset: 0, file_len: 2880, nrows: 2, row_width: 18, pcount: 0 };
    let cells = vec![
        Vec::new(),
        vec![truths(&[1, 0, 1]), truths(&[])],
        vec![VarInput::Text("abc".to_string()), VarInput::Bytes(vec![b'z'])],
    ];
    let bufs = vec![vec![1, 0, 2, 0], vec![0; 16], vec![0; 16]];
    let w = write_vla_aware(&m.columns, &arrays(2), &cells, place).unwrap();
    let mut main =
        encode_main_rows(&m.columns, &w.write.sources, &w.write.plans, &bufs, 0, 2, 2).unwrap();
    let mut heap = w.heap;
    let (numbers, values) = read_mixed(&m, &main, &heap);
    assert_eq!(numbers, vec![1, 0, 2, 0]);
    assert!(is_truths(&values[0].2, &[1, 0, 1]) && is_text(&values[1].2, "abc"));
    assert!(is_truths(&values[2].2, &[]) && is_text(&values[3].2, "z"));

    // Rows are added.
    let place = TablePlace { pcount: heap.len() as u64, ..place };
    let cells = vec![
        Vec::new(),
        vec![truths(&[0, 1, 1, 1, 1, 1, 1, 1, 1])],
        vec![VarInput::Text("new".to_string())],
    ];
    let bufs = vec![vec![3, 0], vec![0; 8], vec![0; 8]];
    let a = append_vla_aware(&m.columns, &arrays(1), &cells, place, 1).unwrap();
    main.extend(
        encode_main_rows(&m.columns, &a.write.sources, &a.write.plans, &bufs, 0, 1, 1).unwrap(),
    );
    heap.extend(&a.heap);
    assert_eq!(a.pcount, heap.len() as u64);
    let m = mixed(3);
    let (numbers, values) = read_mixed(&m, &main, &heap);
    assert_eq!(numbers, vec![1, 0, 2, 0, 3, 0]);
    assert!(is_truths(&values[0].2, &[1, 0, 1]) && is_text(&values[1].2, "abc"));
    assert!(is_truths(&values[4].2, &[0, 1, 1, 1, 1, 1, 1, 1, 1]) && is_text(&values[5].2, "new"));

    // A cell is overwritten.
    let place = TablePlace { nrows: 3, pcount: heap.len() as u64, ..place };
    let given = VarInput::Text("other".to_string());
    let c = setitem_cell_vla(&m.columns[2], Descriptor::P, 0, &given, place).unwrap();
    let at = c.descriptor_at as usize;
    main[at..at + 8].copy_from_slice(&c.write.descriptor);
    heap.extend(&c.write.bytes);
    let (numbers, values) = read_mixed(&m, &main, &heap);
    assert_eq!(numbers, vec![1, 0, 2, 0, 3, 0]);
    assert!(is_truths(&values[0].2, &[1, 0, 1]) && is_text(&values[1].2, "other"));
    assert!(is_text(&values[3].2, "z") && is_text(&values[5].2, "new"));
}
