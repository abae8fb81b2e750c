use fits_table::cards::{
    build_new_column_cards, bytes_of_text, delete_column_cards, insert_cards_before_end, insert_column_cards, number_card,
    parse_per_column_card, pcount_card, rebuild_per_column_card, renumber_per_column_cards,
    set_naxis2_in_cards, set_pcount_in_cards, set_theap_in_cards, set_x_vla_tform_maxlen_in_cards, update_int_card,
    NumberCards, Stem,
};
use fits_table::columns::{Column, Descriptor, Letter};
use fits_table::edit::{
    find_column_by_name, parse_tdim_for_encode, plan_delete_column, resolve_column_key,
    resolve_insert_index, ColumnKey, DeletePlan, Target,
};
use fits_table::encode::WriteTransform;
use fits_table::error::{CellError, DtypeError, EditError, InputError, VarError, WriteError};
use fits_table::header::{Card, CardValue};
use fits_table::input::ArrayInfo;
use fits_table::keywords::{heap_base_in_data, parse_columns, ColumnKeywords, TableKeywords};
use fits_table::layout::{plan_repack, Extent};
use fits_table::plans::{
    insert_column_impl, theap_after_append, InsertColumn, InsertPlan, InsertRequest, TablePlace,
};
use fits_table::reshape::{
    descriptor_cells, encode_new_cells, narrow_rows, plan_delete_layout, plan_insert_layout,
    widen_rows,
};
use fits_table::shuffle::{
    relocate_region_backward, relocate_region_forward, strips_from_back, strips_from_front, Move,
    RowStrip,
};
use fits_table::vla::{VarInput, VlaCellPlan};

fn keywords(name: &str, tform: &str) -> ColumnKeywords {
    ColumnKeywords {
        ttype: Some(name.to_string()),
        tform: Some(tform.to_string()),
        tdim: None,
        tscal: None,
        tzero: None,
        tnull: None,
        tunit: None,
    }
}

fn columns(list: Vec<ColumnKeywords>, width: i64) -> Vec<Column> {
    parse_columns(&TableKeywords {
        naxis1: Some(width),
        naxis2: Some(2),
        tfields: Some(list.len() as i64),
        theap: None,
        columns: list,
    })
    .unwrap()
}

fn three() -> Vec<Column> {
    columns(vec![keywords("a", "1I"), keywords("b", "1J"), keywords("maß", "1D")], 14)
}

fn name(s: &str) -> ColumnKey {
    ColumnKey::Name(s.to_string())
}

#[test]
fn columns_are_found_by_name_and_place() {
    let cols = three();
    assert_eq!(find_column_by_name(&cols, "B"), Some(1));
    assert_eq!(find_column_by_name(&cols, "MASS"), Some(2));
    assert_eq!(find_column_by_name(&cols, "c"), None);
    assert_eq!(resolve_column_key(&cols, &name("A")), Ok(0));
    assert_eq!(resolve_column_key(&cols, &name("zz")), Err(EditError::UnknownColumn));
    assert_eq!(resolve_column_key(&cols, &ColumnKey::Index(-1)), Ok(2));
    assert_eq!(
        resolve_column_key(&cols, &ColumnKey::Index(3)),
        Err(EditError::ColumnIndex { index: 3, columns: 3 })
    );
    assert_eq!(
        resolve_column_key(&cols, &ColumnKey::Index(i64::MIN)),
        Err(EditError::ColumnIndex { index: i64::MIN, columns: 3 })
    );
    assert_eq!(resolve_column_key(&cols, &ColumnKey::Other), Err(EditError::NotColumnKey));
}

fn target(position: Option<i64>, after: Option<ColumnKey>, before: Option<ColumnKey>) -> Target {
    Target { position, after, before }
}

#[test]
fn places_for_a_new_column() {
    let cols = three();
    let at = |t: Target| resolve_insert_index(&cols, &t);
    assert_eq!(at(target(None, None, None)), Ok(3));
    assert_eq!(at(target(Some(0), None, None)), Ok(0));
    assert_eq!(at(target(Some(3), None, None)), Ok(3));
    assert_eq!(at(target(None, Some(name("A")), None)), Ok(1));
    assert_eq!(at(target(None, None, Some(ColumnKey::Index(-1)))), Ok(2));
    assert_eq!(
        at(target(Some(4), None, None)),
        Err(EditError::Position { position: 4, columns: 3 })
    );
    assert_eq!(
        at(target(Some(-1), None, None)),
        Err(EditError::Position { position: -1, columns: 3 })
    );
    assert_eq!(
        at(target(Some(1), Some(name("a")), None)),
        Err(EditError::TwoTargets)
    );
    assert_eq!(
        at(target(None, Some(name("a")), Some(name("b")))),
        Err(EditError::TwoTargets)
    );
    assert_eq!(at(target(None, Some(name("q")), None)), Err(EditError::UnknownColumn));
}

fn array(shape: Vec<usize>, kind: char, itemsize: usize) -> ArrayInfo {
    let nbytes = shape.iter().product::<usize>() * itemsize;
    ArrayInfo { is_array: true, shape, kind, itemsize, contiguous: true, nbytes }
}

fn request(n: &str) -> InsertRequest {
    InsertRequest {
        name: n.to_string(),
        target: target(Some(1), None, None),
        unit: Some("m".to_string()),
        inner: None,
        format: None,
        bits: false,
    }
}

fn place() -> TablePlace {
    TablePlace { data_offset: 2880, file_len: 5760, nrows: 2, row_width: 14, pcount: 10 }
}

fn insert(
    q: &InsertRequest,
    a: &ArrayInfo,
    cells: Vec<VarInput>,
) -> Result<InsertPlan, EditError> {
    insert_column_impl(q, &three(), a, &vec![cells], place(), 0)
}

#[test]
fn a_column_of_numbers_is_put_in() {
    let p = insert(&request("n"), &array(vec![2, 2, 3], 'u', 2), Vec::new()).unwrap();
    assert_eq!((p.at, p.pre, p.row_width), (1, 2, 26));
    match p.column {
        InsertColumn::Fixed(n) => {
            assert_eq!(n.column.letter, Letter::I);
            assert_eq!(n.column.repeat, 6);
            assert_eq!(n.column.tdim, Some("(3,2)".to_string()));
            assert_eq!(n.column.tzero, Some(32768));
            assert_eq!(n.column.tunit, Some("m".to_string()));
            assert_eq!(n.transform, WriteTransform::UnsignedXor { elem_w: 2, num_elems: 6 });
            assert_eq!(n.size, 12);
        }
        InsertColumn::Heap { .. } => panic!("numbers are not in the heap"),
    }
    let mut q = request("n");
    q.bits = true;
    let p = insert(&q, &array(vec![2, 9], 'b', 1), Vec::new()).unwrap();
    assert_eq!(p.row_width, 16);
}

#[test]
fn a_column_of_objects_is_put_in() {
    let mut q = request("n");
    q.inner = Some("u1".to_string());
    q.format = Some("q".to_string());
    let bytes = |b: Vec<u8>| VarInput::Array {
        shape: vec![b.len()],
        kind: 'u',
        itemsize: 1,
        contiguous: true,
        bytes: b,
    };
    let cells = vec![bytes(vec![1, 2, 3]), bytes(vec![4])];
    let p = insert(&q, &array(vec![2], 'O', 8), cells).unwrap();
    assert_eq!((p.at, p.pre, p.row_width), (1, 2, 30));
    match p.column {
        InsertColumn::Heap { column, bytes } => {
            assert_eq!(column.kind, Descriptor::Q);
            assert_eq!(column.column.letter, Letter::B);
            assert_eq!(column.heap_end, 14);
            assert_eq!(column.plans[1], VlaCellPlan { nelements: 1, offset: 13 });
            assert_eq!(bytes, vec![1, 2, 3, 4]);
        }
        InsertColumn::Fixed(_) => panic!("objects are in the heap"),
    }
}

#[test]
fn columns_that_cannot_be_put_in() {
    let numbers = || array(vec![2], 'i', 2);
    let objects = || array(vec![2], 'O', 8);
    let two = || vec![VarInput::Other, VarInput::Other];
    let err = |r: Result<InsertPlan, EditError>| r.map(|p| p.at).unwrap_err();
    assert_eq!(err(insert(&request(""), &numbers(), Vec::new())), EditError::EmptyName);
    assert_eq!(
        err(insert(&request("MASS"), &numbers(), Vec::new())),
        EditError::NameTaken { column: 2 }
    );
    let mut q = request("n");
    q.inner = Some("f4".to_string());
    assert_eq!(err(insert(&q, &numbers(), Vec::new())), EditError::InnerWithoutObjects);
    let mut q = request("n");
    q.format = Some("P".to_string());
    assert_eq!(err(insert(&q, &numbers(), Vec::new())), EditError::FormatWithoutObjects);
    assert_eq!(
        err(insert(&request("n"), &array(vec![], 'i', 2), Vec::new())),
        EditError::NoRowAxis
    );
    assert_eq!(
        err(insert(&request("n"), &array(vec![2], 'f', 2), Vec::new())),
        EditError::Dtype { error: DtypeError::Float16 }
    );
    assert_eq!(
        err(insert(&request("n"), &array(vec![3], 'i', 2), Vec::new())),
        EditError::Input { input: InputError::FirstAxis }
    );
    assert_eq!(
        err(insert(&request("n"), &array(vec![2, 0, 3], 'i', 2), Vec::new())),
        EditError::Input { input: InputError::ShortBuffer { got: 0, expected: 4 } }
    );
    assert_eq!(err(insert(&request("n"), &objects(), two())), EditError::InnerMissing);
    let mut q = request("n");
    q.inner = Some("f4".to_string());
    q.format = Some("R".to_string());
    assert_eq!(err(insert(&q, &objects(), two())), EditError::NoSuchFormat);
    q.format = None;
    assert_eq!(
        err(insert(&q, &array(vec![2, 1], 'O', 8), two())),
        EditError::ObjectAxis { nrows: 2 }
    );
    assert_eq!(
        err(insert(&q, &objects(), two())),
        EditError::Objects {
            write: WriteError::HeapCell { column: 0, row: 0, heap: VarError::NotArray }
        }
    );
    q.inner = Some("f2".to_string());
    assert_eq!(
        err(insert(&q, &objects(), two())),
        EditError::Dtype { error: DtypeError::UnsupportedInner }
    );
    let custom = insert_column_impl(&q, &three(), &numbers(), &Vec::new(), place(), 30);
    assert_eq!(err(custom), EditError::CustomHeap { theap: 30, main: 28 });
}

#[test]
fn a_column_is_taken_out() {
    let cols = three();
    assert_eq!(
        plan_delete_column(&cols, 2, 14, 0, &name("B")),
        Ok(DeletePlan { column: 1, pre: 2, post: 6, row_width: 10 })
    );
    assert_eq!(
        plan_delete_column(&cols, 2, 14, 5, &name("B")),
        Err(EditError::CustomHeap { theap: 5, main: 28 })
    );
    assert_eq!(
        plan_delete_column(&Vec::new(), 2, 0, 0, &name("B")),
        Err(EditError::NoColumns)
    );
    assert_eq!(
        plan_delete_column(&cols, 2, 14, 0, &name("zz")),
        Err(EditError::UnknownColumn)
    );
}

#[test]
fn dimensions_of_a_new_column() {
    assert_eq!(parse_tdim_for_encode("(4,3)"), Some(vec![4, 3]));
    assert_eq!(parse_tdim_for_encode("(4,0)"), Some(vec![4, 0]));
    assert_eq!(parse_tdim_for_encode("(4,x)"), None);
}

#[test]
fn rows_get_wider_and_back() {
    let old = vec![1, 2, 3, 4, 5, 6];
    let wide = widen_rows(&old, 3, 1, &vec![8, 8, 9, 9], 2, 2);
    assert_eq!(wide, vec![1, 8, 8, 2, 3, 4, 9, 9, 5, 6]);
    assert_eq!(narrow_rows(&wide, 5, 1, 3, 2), old);
}

#[test]
fn cells_of_a_new_column() {
    let t = WriteTransform::Identity { elem_w: 2, num_elems: 1 };
    assert_eq!(
        encode_new_cells(t, &vec![1, 0, 2, 0, 3, 0], 2, 1, 2),
        Ok(vec![0, 2, 0, 3])
    );
    let t = WriteTransform::UnicodeToAscii { num_chars: 1 };
    assert_eq!(
        encode_new_cells(t, &vec![65, 0, 0, 0, 66, 0, 0, 0, 0, 1, 0, 0], 4, 1, 2),
        Err(EditError::NewCell {
            row: 1,
            cell: CellError::NonAsciiChar { codepoint: 256, position: 0 }
        })
    );
    let plans =
        vec![VlaCellPlan { nelements: 1, offset: 2 }, VlaCellPlan { nelements: 3, offset: 4 }];
    assert_eq!(
        descriptor_cells(Descriptor::P, &plans, 1, 1),
        vec![0, 0, 0, 3, 0, 0, 0, 4]
    );
}

fn apply(file: &mut Vec<u8>, moves: &[Move]) {
    for m in moves {
        let part = file[m.from as usize..(m.from + m.len) as usize].to_vec();
        file[m.to as usize..(m.to + m.len) as usize].copy_from_slice(&part);
    }
}

#[test]
fn parts_move_over_themselves() {
    let n = 3_000_000usize;
    let file: Vec<u8> = (0..n).map(|i| (i % 251) as u8).collect();
    let total = 2_500_000u64;
    let mut forward = file.clone();
    apply(&mut forward, &relocate_region_forward(100, 1000, total));
    assert_eq!(&forward[1000..1000 + total as usize], &file[100..100 + total as usize]);
    let mut backward = file.clone();
    apply(&mut backward, &relocate_region_backward(1000, 100, total));
    assert_eq!(&backward[100..100 + total as usize], &file[1000..1000 + total as usize]);
    assert!(relocate_region_forward(5, 5, 10).is_empty());
    assert!(relocate_region_backward(9, 5, 0).is_empty());
}

#[test]
fn strips_of_rows() {
    let w = 500_000;
    assert_eq!(
        strips_from_back(5, w),
        vec![
            RowStrip { first: 3, rows: 2 },
            RowStrip { first: 1, rows: 2 },
            RowStrip { first: 0, rows: 1 }
        ]
    );
    assert_eq!(
        strips_from_front(5, w),
        vec![
            RowStrip { first: 0, rows: 2 },
            RowStrip { first: 2, rows: 2 },
            RowStrip { first: 4, rows: 1 }
        ]
    );
    assert_eq!(strips_from_back(0, w), Vec::new());
    assert_eq!(strips_from_front(3, 0), vec![RowStrip { first: 0, rows: 3 }]);
}

#[test]
fn rows_get_wider_in_place() {
    // 40 rows of 100,000 bytes get a column of 50,000 bytes behind the first 7.
    let (n, ow, nw, pre) = (40usize, 100_000usize, 150_000usize, 7usize);
    let old: Vec<u8> = (0..n * ow).map(|i| (i % 253) as u8).collect();
    let mut file = old.clone();
    file.resize(n * nw, 0);
    for s in strips_from_back(n, nw) {
        let part = file[s.first * ow..(s.first + s.rows) * ow].to_vec();
        let cells = vec![255u8; s.rows * (nw - ow)];
        let wide = widen_rows(&part, ow, pre, &cells, nw - ow, s.rows);
        file[s.first * nw..(s.first + s.rows) * nw].copy_from_slice(&wide);
    }
    for r in [0, 17, n - 1] {
        let row = &file[r * nw..(r + 1) * nw];
        let was = &old[r * ow..(r + 1) * ow];
        assert_eq!(&row[..pre], &was[..pre]);
        assert!(row[pre..pre + nw - ow].iter().all(|b| *b == 255));
        assert_eq!(&row[pre + nw - ow..], &was[pre..]);
    }
    for s in strips_from_front(n, nw) {
        let part = file[s.first * nw..(s.first + s.rows) * nw].to_vec();
        let narrow = narrow_rows(&part, nw, pre, pre + nw - ow, s.rows);
        file[s.first * ow..(s.first + s.rows) * ow].copy_from_slice(&narrow);
    }
    assert_eq!(&file[..n * ow], &old[..]);
}

fn cards(list: &[&str]) -> Vec<String> {
    list.iter().map(|s| s.to_string()).collect()
}

#[test]
fn cards_of_columns_are_known() {
    assert_eq!(parse_per_column_card("TFORM12 = '1J'"), Some((Stem::Tform, 12)));
    assert_eq!(parse_per_column_card("TDIM3   = '(2,2)'"), Some((Stem::Tdim, 3)));
    assert_eq!(parse_per_column_card("TDISP3  = 'F8.2'"), Some((Stem::Tdisp, 3)));
    assert_eq!(parse_per_column_card("TFORM0  = '1J'"), None);
    assert_eq!(parse_per_column_card("TFORMx  = '1J'"), None);
    assert_eq!(parse_per_column_card("TFIELDS =  3"), None);
    assert_eq!(parse_per_column_card("TTYPE1"), None);
    assert_eq!(parse_per_column_card("TTYPE1  "), Some((Stem::Ttype, 1)));
    assert_eq!(
        rebuild_per_column_card("TTYPE9  = 'a' / ü", Stem::Ttype, 10),
        "TTYPE10 = 'a' / ü"
    );
    assert_eq!(bytes_of_text("aü€"), 6);
}

#[test]
fn numbers_of_columns_move_up_and_down() {
    let was = cards(&["TTYPE1  = 'a'", "TTYPE2  = 'b'", "TZERO2  = 1", "EXTNAME = 'x'", "END"]);
    let mut c = was.clone();
    renumber_per_column_cards(&mut c, 1, true);
    assert_eq!(
        c,
        cards(&["TTYPE1  = 'a'", "TTYPE3  = 'b'", "TZERO3  = 1", "EXTNAME = 'x'", "END"])
    );
    renumber_per_column_cards(&mut c, 1, false);
    assert_eq!(c, was);
}

fn number_cards(tfields: &str, naxis1: &str, pcount: Option<&str>) -> NumberCards {
    NumberCards {
        tfields: tfields.to_string(),
        naxis1: naxis1.to_string(),
        pcount: pcount.map(|s| s.to_string()),
    }
}

#[test]
fn taking_a_column_out_undoes_putting_it_in() {
    let was = cards(&[
        "NAXIS1  = 4",
        "PCOUNT  = 0",
        "TFIELDS = 2",
        "TTYPE1  = 'a'",
        "TFORM1  = '1I'",
        "TTYPE2  = 'b'",
        "TFORM2  = '1I'",
        "END",
    ]);
    let with = insert_column_cards(
        was.clone(),
        1,
        cards(&["TTYPE2  = 'n'", "TFORM2  = '1PJ'"]),
        number_cards("TFIELDS = 3", "NAXIS1  = 12", Some("PCOUNT  = 8")),
    )
    .unwrap();
    assert_eq!(
        with,
        cards(&[
            "NAXIS1  = 12",
            "PCOUNT  = 8",
            "TFIELDS = 3",
            "TTYPE1  = 'a'",
            "TFORM1  = '1I'",
            "TTYPE3  = 'b'",
            "TFORM3  = '1I'",
            "TTYPE2  = 'n'",
            "TFORM2  = '1PJ'",
            "END",
        ])
    );
    let mut back =
        delete_column_cards(with, 1, number_cards("TFIELDS = 2", "NAXIS1  = 4", None)).unwrap();
    update_int_card(&mut back, "PCOUNT", "PCOUNT  = 0".to_string()).unwrap();
    assert_eq!(back, was);
}

#[test]
fn headers_without_the_cards_they_need() {
    let mut c = cards(&["NAXIS1  = 4"]);
    assert_eq!(
        insert_cards_before_end(&mut c, cards(&["X"])),
        Err(EditError::MissingEnd)
    );
    assert_eq!(
        update_int_card(&mut c, "TFIELDS", "TFIELDS = 1".to_string()),
        Err(EditError::MissingKeyword)
    );
    assert_eq!(
        set_naxis2_in_cards(&mut c, "NAXIS2  = 1".to_string()),
        Err(EditError::MissingKeyword)
    );
    assert_eq!(
        insert_column_cards(
            cards(&["END"]),
            0,
            Vec::new(),
            number_cards("TFIELDS = 1", "NAXIS1  = 1", None)
        ),
        Err(EditError::MissingKeyword)
    );
}

#[test]
fn the_size_of_the_heap_is_said_once() {
    let new = || "PCOUNT  = 9".to_string();
    let mut c = cards(&["NAXIS1  = 4", "PCOUNT  = 0", "TFIELDS = 0", "END"]);
    set_pcount_in_cards(&mut c, new());
    assert_eq!(c, cards(&["NAXIS1  = 4", "PCOUNT  = 9", "TFIELDS = 0", "END"]));
    let mut c = cards(&["NAXIS1  = 4", "TFIELDS = 0", "END"]);
    set_pcount_in_cards(&mut c, new());
    assert_eq!(c, cards(&["NAXIS1  = 4", "PCOUNT  = 9", "TFIELDS = 0", "END"]));
    let mut c = cards(&["NAXIS1  = 4", "END"]);
    set_pcount_in_cards(&mut c, new());
    assert_eq!(c, cards(&["NAXIS1  = 4", "PCOUNT  = 9", "END"]));
    let mut c = cards(&["NAXIS2  = 4", "END"]);
    set_naxis2_in_cards(&mut c, "NAXIS2  = 5".to_string()).unwrap();
    assert_eq!(c[0], "NAXIS2  = 5");
}

fn text(c: &Card) -> String {
    match &c.value {
        CardValue::Text(s) => s.clone(),
        CardValue::Int(v) => v.to_string(),
        CardValue::Uint(v) => v.to_string(),
        CardValue::End => String::new(),
    }
}

#[test]
fn the_hint_of_bits_never_gets_smaller() {
    let c = cards(&["TFORM10 = '1PX(99)'", "TFORM1  = '1PX(7)' / data", "END"]);
    let (at, card) = set_x_vla_tform_maxlen_in_cards(&c, 1, Descriptor::P, 5).unwrap();
    assert_eq!((at, card.key.as_str()), (1, "TFORM1"));
    assert_eq!(text(&card), "1PX(7)");
    let (_, card) = set_x_vla_tform_maxlen_in_cards(&c, 1, Descriptor::P, 12).unwrap();
    assert_eq!(text(&card), "1PX(12)");
    let bare = cards(&["TFORM1  = '1QX'", "END"]);
    let (_, card) = set_x_vla_tform_maxlen_in_cards(&bare, 1, Descriptor::Q, 3).unwrap();
    assert_eq!(text(&card), "1QX(3)");
    assert!(set_x_vla_tform_maxlen_in_cards(&bare, 2, Descriptor::Q, 3).is_none());
}

#[test]
fn cards_of_numbers() {
    let c = number_card("NAXIS1", 12);
    assert_eq!((text(&c), c.comment.as_str()), ("12".to_string(), "width of table in bytes"));
    assert_eq!(number_card("NAXIS2", 1).comment, "number of rows in table");
    assert_eq!(number_card("TFIELDS", 1).comment, "number of columns");
    assert_eq!(number_card("PCOUNT", 1).comment, "");
    assert_eq!(pcount_card(8).comment, "size of special data area");
}

#[test]
fn insert_layout_moves_the_heap_behind_wider_rows() {
    // Three rows of 4 bytes become rows of 6 bytes, and a heap of 5 bytes gets
    // 2 more.
    let l = plan_insert_layout(2880, 3, 4, 6, 5, 7, 5760).unwrap();
    assert_eq!(l.extent, Extent::Keep);
    assert_eq!(l.moves, vec![Move { from: 2880 + 12, to: 2880 + 18, len: 5 }]);
    assert_eq!(l.strips, vec![RowStrip { first: 0, rows: 3 }]);
    assert_eq!(l.heap_at, 2880 + 18 + 5);
}

#[test]
fn insert_layout_opens_a_gap_before_what_follows() {
    let l = plan_insert_layout(2880, 1000, 2, 4, 0, 0, 11520).unwrap();
    assert_eq!(l.extent, Extent::OpenGap { at: 5760, by: 2880 });
    assert_eq!(l.moves, vec![]);
    let end = plan_insert_layout(2880, 1000, 2, 4, 0, 0, 5760).unwrap();
    assert_eq!(end.extent, Extent::SetLength { length: 8640 });
    let e = plan_insert_layout(u64::MAX - 10, 1, 2, 4, 0, 0, 5760);
    assert_eq!(e.err(), Some(EditError::TooLarge));
}

#[test]
fn delete_layout_undoes_an_insert_layout() {
    let l = plan_delete_layout(2880, 3, 6, 4, 7, 5760).unwrap();
    assert_eq!(l.strips, vec![RowStrip { first: 0, rows: 3 }]);
    assert_eq!(l.moves, vec![Move { from: 2880 + 18, to: 2880 + 12, len: 7 }]);
    assert_eq!(l.extent, Extent::Keep);
    let gap = plan_delete_layout(2880, 1000, 4, 2, 0, 11520).unwrap();
    assert_eq!(gap.extent, Extent::CloseGap { at: 8640, by: 2880 });
    let e = plan_delete_layout(u64::MAX - 10, 1, 4, 2, 0, 5760);
    assert_eq!(e.err(), Some(EditError::TooLarge));
}

#[test]
fn repack_layout_makes_room_before_and_gives_it_up_after() {
    let grows = plan_repack(2880, 10, 8, 2000, 4000, 11520).unwrap();
    assert_eq!(grows.before, Extent::OpenGap { at: 5760, by: 2880 });
    assert_eq!(grows.after, Extent::Keep);
    assert_eq!((grows.rows_at, grows.heap_at), (2880, 2960));
    let shrinks = plan_repack(2880, 10, 8, 4000, 2000, 11520).unwrap();
    assert_eq!(shrinks.before, Extent::Keep);
    assert_eq!(shrinks.after, Extent::CloseGap { at: 8640, by: 2880 });
    let e = plan_repack(2880, 10, 8, u64::MAX, 0, 11520);
    assert_eq!(e.err(), Some(EditError::TooLarge));
}

#[test]
fn truth_values_of_objects_are_packed_into_bits() {
    let mut q = request("n");
    q.inner = Some("?".to_string());
    q.bits = true;
    let truths = |n: usize| VarInput::Array {
        shape: vec![n],
        kind: 'b',
        itemsize: 1,
        contiguous: true,
        bytes: vec![1; n],
    };
    let p = insert(&q, &array(vec![2], 'O', 8), vec![truths(3), truths(10)]).unwrap();
    assert_eq!(p.hint, Some(10));
    match p.column {
        InsertColumn::Heap { column, bytes } => {
            assert_eq!(column.column.letter, Letter::X);
            assert_eq!(column.plans[0], VlaCellPlan { nelements: 3, offset: 10 });
            assert_eq!(column.plans[1], VlaCellPlan { nelements: 10, offset: 11 });
            assert_eq!(column.heap_end, 13);
            assert_eq!(bytes, vec![0xe0, 0xff, 0xc0]);
            let cards = build_new_column_cards(&column.column, 2, p.hint);
            assert_eq!(cards[1].key, "TFORM2");
            match &cards[1].value {
                CardValue::Text(s) => assert_eq!(s, "1PX(10)"),
                _ => panic!("TFORM is a text"),
            }
        }
        InsertColumn::Fixed(_) => panic!("objects are in the heap"),
    }
    q.bits = false;
    let p = insert(&q, &array(vec![2], 'O', 8), vec![truths(3), truths(10)]).unwrap();
    assert_eq!(p.hint, None);
}

#[test]
fn the_heap_is_found_behind_rows_of_another_width() {
    let was = cards(&[
        "NAXIS1  = 24",
        "TFIELDS = 2",
        "THEAP   = 48",
        "TTYPE1  = 'a'",
        "TTYPE2  = 'b'",
        "END",
    ]);
    let back = delete_column_cards(
        was.clone(),
        0,
        number_cards("TFIELDS = 1", "NAXIS1  = 8", None),
    )
    .unwrap();
    assert_eq!(back, cards(&["NAXIS1  = 8", "TFIELDS = 1", "TTYPE1  = 'b'", "END"]));
    assert_eq!(heap_base_in_data(Some(8), Some(2), None), 16);
    let with = insert_column_cards(
        was,
        2,
        cards(&["TTYPE3  = 'c'"]),
        number_cards("TFIELDS = 3", "NAXIS1  = 26", None),
    )
    .unwrap();
    assert!(!with.iter().any(|c| c.starts_with("THEAP")));
}

#[test]
fn the_heap_is_found_behind_added_rows() {
    assert_eq!(theap_after_append(48, 3, 24), Ok(Some(120)));
    assert_eq!(theap_after_append(0, 3, 24), Ok(None));
    assert_eq!(theap_after_append(i64::MAX, 1, 1), Err(WriteError::TooLarge));
    let mut c = cards(&["NAXIS2  = 2", "THEAP   = 48", "END"]);
    set_theap_in_cards(&mut c, "THEAP   = 120".to_string());
    assert_eq!(c, cards(&["NAXIS2  = 2", "THEAP   = 120", "END"]));
    let mut c = cards(&["NAXIS2  = 2", "END"]);
    set_theap_in_cards(&mut c, "THEAP   = 120".to_string());
    assert_eq!(c, cards(&["NAXIS2  = 2", "END"]));
}
