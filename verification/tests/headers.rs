use fits_table::columns::{Column, Descriptor, Letter, ScalingKind, ONE_BITS};
use fits_table::create::{BitColumns, Field, InnerTypes};
use fits_table::error::{CreateError, DtypeError, HeaderError};
use fits_table::fields::{field_dtype_and_shape, NumpyType};
use fits_table::header::{normalize_and_build_table_header, tform_text_of, Card, CardValue};
use fits_table::keywords::{
    heap_base_in_data, header_count, parse_columns, parse_table_meta, parse_tdim, parse_tform,
    ColumnKeywords, TableKeywords, Tform,
};

fn keywords(name: &str, tform: &str) -> ColumnKeywords {
    ColumnKeywords {
        ttype: Some(name.to_string()),
        tform: Some(tform.to_string()),
        tdim: None,
        tscal: None,
        tzero: None,
        tnull: None,
        tunit: None,
    }
}

fn table(columns: Vec<ColumnKeywords>, naxis1: i64, naxis2: i64) -> TableKeywords {
    TableKeywords {
        naxis1: Some(naxis1),
        naxis2: Some(naxis2),
        tfields: Some(columns.len() as i64),
        theap: None,
        columns,
    }
}

fn columns_of(columns: Vec<ColumnKeywords>, naxis1: i64) -> Result<Vec<Column>, HeaderError> {
    parse_columns(&table(columns, naxis1, 3))
}

#[test]
fn tforms_of_fixed_columns() {
    assert!(matches!(
        parse_tform("3E", 1),
        Ok(Tform { repeat: 3, letter: 'E', inner: None })
    ));
    assert!(matches!(parse_tform(" J ", 1), Ok(Tform { repeat: 1, letter: 'J', inner: None })));
    assert!(matches!(
        parse_tform("1PE(100)", 1),
        Ok(Tform { repeat: 1, letter: 'P', inner: Some('E') })
    ));
    assert!(matches!(parse_tform("", 4), Err(HeaderError::NoTypeLetter { column: 4 })));
    assert!(matches!(parse_tform("12", 4), Err(HeaderError::NoTypeLetter { column: 4 })));
    assert!(matches!(parse_tform("-1E", 4), Err(HeaderError::RepeatNotInteger { column: 4 })));
    assert!(matches!(parse_tform("2Ex", 4), Err(HeaderError::TrailingModifier { column: 4 })));
    assert!(matches!(parse_tform("1P", 4), Err(HeaderError::MissingInnerLetter { column: 4 })));
    assert!(matches!(
        parse_tform("1P3", 4),
        Err(HeaderError::InnerNotLetter { column: 4, inner: '3' })
    ));
    assert!(matches!(parse_tform("1PEx", 4), Err(HeaderError::InvalidTrailer { column: 4 })));
}

#[test]
fn tdims() {
    assert_eq!(parse_tdim("(4,3)", 1), Ok(vec![4, 3]));
    assert_eq!(parse_tdim(" ( 7 ) ", 1), Ok(vec![7]));
    assert_eq!(parse_tdim("4,3", 2), Err(HeaderError::TdimNotParenthesized { column: 2 }));
    assert_eq!(parse_tdim("(4,x)", 2), Err(HeaderError::TdimNotInteger { column: 2, part: 1 }));
    assert_eq!(parse_tdim("(4,0)", 2), Err(HeaderError::TdimZero { column: 2, part: 1 }));
}

#[test]
fn columns_follow_each_other() {
    let mut image = keywords("image", "12I");
    image.tdim = Some("(4,3)".to_string());
    image.tunit = Some("adu".to_string());
    let cols = columns_of(
        vec![keywords("a", "2J"), image, keywords("bits", "10X"), keywords("v", "1QD")],
        8 + 24 + 2 + 16,
    )
    .unwrap();
    assert_eq!(cols.len(), 4);
    assert_eq!((cols[0].byte_offset, cols[0].byte_width), (0, 8));
    assert_eq!((cols[1].byte_offset, cols[1].byte_width), (8, 24));
    assert_eq!(cols[1].tdim, Some(vec![4, 3]));
    assert_eq!(cols[1].tunit, Some("adu".to_string()));
    assert_eq!((cols[2].byte_offset, cols[2].byte_width), (32, 2));
    assert_eq!((cols[3].byte_offset, cols[3].byte_width), (34, 16));
    assert_eq!(cols[3].var_kind, Some(Descriptor::Q));
    assert_eq!(cols[3].letter, Letter::D);
    assert_eq!(cols[0].tscal, ONE_BITS);
}

#[test]
fn columns_of_bits_in_the_heap() {
    let cols = columns_of(vec![keywords("flags", "1PX(20)")], 8).unwrap();
    assert_eq!(cols[0].letter, Letter::X);
    assert_eq!(cols[0].var_kind, Some(Descriptor::P));
    assert_eq!(cols[0].byte_width, 8);
}

#[test]
fn headers_that_describe_no_table() {
    let none = TableKeywords {
        naxis1: Some(0),
        naxis2: Some(0),
        tfields: None,
        theap: None,
        columns: Vec::new(),
    };
    assert!(matches!(parse_columns(&none), Err(HeaderError::MissingTfields)));
    let negative = TableKeywords { tfields: Some(-2), ..none };
    assert!(matches!(
        parse_columns(&negative),
        Err(HeaderError::NegativeTfields { tfields: -2 })
    ));
    let mut bare = keywords("a", "1J");
    bare.tform = None;
    assert!(matches!(columns_of(vec![bare], 4), Err(HeaderError::MissingTform { column: 1 })));
    assert!(matches!(
        columns_of(vec![keywords("a", "2PE")], 16),
        Err(HeaderError::DescriptorRepeat { column: 1 })
    ));
    assert!(matches!(
        columns_of(vec![keywords("a", "1PZ")], 8),
        Err(HeaderError::UnsupportedInner { column: 1, inner: 'Z' })
    ));
    assert!(matches!(
        columns_of(vec![keywords("a", "1Z")], 8),
        Err(HeaderError::UnsupportedLetter { column: 1, letter: 'Z' })
    ));
    let mut dims = keywords("a", "1PE");
    dims.tdim = Some("(1)".to_string());
    assert!(matches!(
        columns_of(vec![dims], 8),
        Err(HeaderError::DescriptorTdim { column: 1 })
    ));
    let mut product = keywords("a", "5J");
    product.tdim = Some("(2,2)".to_string());
    assert!(matches!(
        columns_of(vec![product], 20),
        Err(HeaderError::TdimProduct { column: 1, product: 4, repeat: 5 })
    ));
    assert!(matches!(
        columns_of(vec![keywords("a", "1J")], 5),
        Err(HeaderError::RowWidth { width: 4, naxis1: 5 })
    ));
    assert!(matches!(
        columns_of(vec![keywords("a", "99999999999999999999J")], 5),
        Err(HeaderError::RepeatNotInteger { column: 1 })
    ));
    assert!(matches!(
        columns_of(vec![keywords("a", "18446744073709551615M")], 5),
        Err(HeaderError::WidthOverflow { column: 1 })
    ));
}

#[test]
fn counts_of_a_header() {
    assert_eq!(header_count(Some(7)), 7);
    assert_eq!(header_count(Some(-7)), 0);
    assert_eq!(header_count(None), 0);
    assert_eq!(heap_base_in_data(Some(10), Some(4), None), 40);
    assert_eq!(heap_base_in_data(Some(10), Some(4), Some(64)), 64);
    let meta = parse_table_meta(&table(vec![keywords("a", "1J")], 4, 6)).unwrap();
    assert_eq!((meta.nrows, meta.row_width), (6, 4));
    assert_eq!(meta.theap, 24);
}

#[test]
fn scaling_of_columns() {
    let mut unsigned = keywords("u", "1I");
    unsigned.tzero = Some(32768f64.to_bits());
    let mut scaled = keywords("s", "1I");
    scaled.tscal = Some(0.5f64.to_bits());
    let cols = columns_of(vec![unsigned, scaled, keywords("n", "1E")], 8).unwrap();
    assert_eq!(
        fits_table::columns::scaling_kind(&cols[0]),
        Some(ScalingKind::UnsignedTrick)
    );
    assert_eq!(fits_table::columns::scaling_kind(&cols[1]), Some(ScalingKind::General));
    assert_eq!(fits_table::columns::scaling_kind(&cols[2]), Some(ScalingKind::Unscaled));
    let mut complex = keywords("c", "1C");
    complex.tscal = Some(2f64.to_bits());
    let cols = columns_of(vec![complex], 8).unwrap();
    assert_eq!(fits_table::columns::scaling_kind(&cols[0]), None);
}

fn field(name: &str, kind: char, itemsize: usize, shape: Vec<usize>) -> Field {
    Field { name: name.to_string(), kind, itemsize, shape, unit: None }
}

fn text_of(cards: &[Card], key: &str) -> Option<String> {
    for c in cards {
        if c.key == key {
            return match &c.value {
                CardValue::Text(s) => Some(s.clone()),
                CardValue::Int(v) => Some(v.to_string()),
                CardValue::Uint(v) => Some(v.to_string()),
                CardValue::End => Some(String::new()),
            };
        }
    }
    None
}

#[test]
fn a_new_table_has_its_cards() {
    let mut ra = field("ra", 'f', 8, vec![]);
    ra.unit = Some("deg".to_string());
    let fields = Some(vec![
        ra,
        field("id", 'u', 4, vec![]),
        field("stamp", 'i', 2, vec![3, 4]),
        field("name", 'U', 40, vec![]),
        field("tags", 'S', 5, vec![2]),
        field("flag", 'b', 1, vec![9]),
        field("list", 'O', 8, vec![]),
    ]);
    let inner = Some(InnerTypes {
        names: vec!["list".to_string()],
        codes: vec![Some("<f4".to_string())],
    });
    let bits = Some(BitColumns::Names(vec!["FLAG".to_string()]));
    let (cards, bytes) = normalize_and_build_table_header(
        &fields,
        5,
        Some("CAT"),
        Some(2),
        &inner,
        &bits,
        Descriptor::Q,
    )
    .unwrap();
    let width = 8 + 4 + 24 + 10 + 10 + 2 + 16;
    assert_eq!(text_of(&cards, "NAXIS1"), Some(width.to_string()));
    assert_eq!(text_of(&cards, "NAXIS2"), Some("5".to_string()));
    assert_eq!(text_of(&cards, "TFIELDS"), Some("7".to_string()));
    assert_eq!(text_of(&cards, "EXTNAME"), Some("CAT".to_string()));
    assert_eq!(text_of(&cards, "EXTVER"), Some("2".to_string()));
    assert_eq!(text_of(&cards, "TFORM1"), Some("1D".to_string()));
    assert_eq!(text_of(&cards, "TUNIT1"), Some("deg".to_string()));
    assert_eq!(text_of(&cards, "TFORM2"), Some("1J".to_string()));
    assert_eq!(text_of(&cards, "TZERO2"), Some("2147483648".to_string()));
    assert_eq!(text_of(&cards, "TFORM3"), Some("12I".to_string()));
    assert_eq!(text_of(&cards, "TDIM3"), Some("(4,3)".to_string()));
    assert_eq!(text_of(&cards, "TFORM4"), Some("10A".to_string()));
    assert_eq!(text_of(&cards, "TDIM5"), Some("(5,2)".to_string()));
    assert_eq!(text_of(&cards, "TFORM6"), Some("9X".to_string()));
    assert_eq!(text_of(&cards, "TFORM7"), Some("1QE".to_string()));
    assert_eq!(cards[cards.len() - 1].key, "END");
    assert_eq!(bytes, width as u64);
}

#[test]
fn array_types_without_a_column_type() {
    let make = |f: Field, inner: Option<InnerTypes>, bits: Option<BitColumns>| {
        normalize_and_build_table_header(
            &Some(vec![f]),
            0,
            None,
            None,
            &inner,
            &bits,
            Descriptor::P,
        )
        .map(|p| p.1)
    };
    let field_error = |error: DtypeError| Err(CreateError::Field { at: 0, error });
    assert_eq!(make(field("a", 'i', 1, vec![]), None, None), field_error(DtypeError::Int8));
    assert_eq!(make(field("a", 'f', 2, vec![]), None, None), field_error(DtypeError::Float16));
    assert_eq!(
        make(field("a", 'S', 0, vec![]), None, None),
        field_error(DtypeError::ZeroLengthString)
    );
    assert_eq!(make(field("a", 'M', 8, vec![]), None, None), field_error(DtypeError::Unsupported));
    assert_eq!(
        make(field("a", 'f', 4, vec![]), None, Some(BitColumns::Names(vec!["A".to_string()]))),
        field_error(DtypeError::BitsNeedBool)
    );
    assert_eq!(make(field("a", 'f', 4, vec![]), None, Some(BitColumns::All)), Ok(4));
    assert_eq!(
        make(field("a", 'O', 8, vec![2]), None, None),
        field_error(DtypeError::ObjectShape)
    );
    assert_eq!(make(field("a", 'O', 8, vec![]), None, None), field_error(DtypeError::NoInnerTypes));
    let types = |name: &str, code: Option<&str>| {
        Some(InnerTypes {
            names: vec![name.to_string()],
            codes: vec![code.map(|c| c.to_string())],
        })
    };
    assert_eq!(
        make(field("a", 'O', 8, vec![]), types("b", Some("f4")), None),
        field_error(DtypeError::MissingInnerType)
    );
    assert_eq!(
        make(field("a", 'O', 8, vec![]), types("a", None), None),
        field_error(DtypeError::InnerTypeNotText)
    );
    assert_eq!(
        make(field("a", 'O', 8, vec![]), types("a", Some("f2")), None),
        field_error(DtypeError::UnsupportedInner)
    );
    assert_eq!(
        make(field("a", 'f', 4, vec![]), types("b", Some("f4")), None),
        Err(CreateError::UnknownInnerType { at: 0 })
    );
    assert_eq!(
        make(field("a", 'f', 4, vec![]), None, Some(BitColumns::Names(vec!["B".to_string()]))),
        Err(CreateError::UnknownBitColumn { at: 0 })
    );
    assert_eq!(
        make(field("a", 'f', 8, vec![usize::MAX]), None, None),
        field_error(DtypeError::TooLarge)
    );
    let none = normalize_and_build_table_header(&None, 0, None, None, &None, &None, Descriptor::P);
    assert!(matches!(none, Err(CreateError::NotStructured)));
    let empty = normalize_and_build_table_header(
        &Some(Vec::new()),
        0,
        None,
        None,
        &None,
        &None,
        Descriptor::P,
    );
    assert!(matches!(empty, Err(CreateError::NoFields)));
}

#[test]
fn bit_columns_are_found_in_any_case() {
    // The name of the field goes through the upper case of all letters.
    let fields = Some(vec![field("maß", 'b', 1, vec![])]);
    let bits = Some(BitColumns::Names(vec!["MASS".to_string()]));
    let (cards, _) = normalize_and_build_table_header(
        &fields,
        0,
        None,
        None,
        &None,
        &bits,
        Descriptor::P,
    )
    .unwrap();
    assert_eq!(text_of(&cards, "TFORM1"), Some("1X".to_string()));
}

#[test]
fn what_is_written_as_tform_reads_back() {
    let t = tform_text_of(Letter::D, 17, None);
    assert_eq!(t, "17D");
    assert!(matches!(parse_tform(&t, 1), Ok(Tform { repeat: 17, letter: 'D', inner: None })));
    let p = tform_text_of(Letter::A, 1, Some(Descriptor::P));
    assert_eq!(p, "1PA");
    assert!(matches!(parse_tform(&p, 1), Ok(Tform { repeat: 1, letter: 'P', inner: Some('A') })));
}

#[test]
fn a_new_table_reads_back() {
    let fields = Some(vec![
        field("x", 'u', 4, vec![]),
        field("m", 'i', 2, vec![3, 4]),
        field("s", 'S', 5, vec![2]),
    ]);
    let (cards, width) = normalize_and_build_table_header(
        &fields,
        5,
        Some("CAT"),
        None,
        &None,
        &None,
        Descriptor::P,
    )
    .unwrap();
    let columns = (1..=3)
        .map(|n| ColumnKeywords {
            ttype: text_of(&cards, &format!("TTYPE{}", n)),
            tform: text_of(&cards, &format!("TFORM{}", n)),
            tdim: text_of(&cards, &format!("TDIM{}", n)),
            tscal: None,
            tzero: text_of(&cards, &format!("TZERO{}", n))
                .map(|s| s.parse::<f64>().unwrap().to_bits()),
            tnull: None,
            tunit: text_of(&cards, &format!("TUNIT{}", n)),
        })
        .collect();
    let back = columns_of(columns, width as i64).unwrap();
    let names: Vec<&str> = back.iter().map(|c| c.name.as_str()).collect();
    assert_eq!(names, vec!["x", "m", "s"]);
    let offsets: Vec<usize> = back.iter().map(|c| c.byte_offset).collect();
    assert_eq!(offsets, vec![0, 4, 28]);
    let types: Vec<_> = back.iter().map(|c| field_dtype_and_shape(c, true).unwrap()).collect();
    assert_eq!(types[0], (NumpyType::U4, vec![]));
    assert_eq!(types[1], (NumpyType::I2, vec![3, 4]));
    assert_eq!(types[2], (NumpyType::Text(5), vec![2]));
}

#[test]
fn rows_that_no_header_can_describe() {
    let wide = || field("a", 'f', 8, vec![1 << 59]);
    let mut other = wide();
    other.name = "b".to_string();
    let r = normalize_and_build_table_header(
        &Some(vec![wide(), other]),
        0,
        None,
        None,
        &None,
        &None,
        Descriptor::P,
    );
    assert_eq!(r.err(), Some(CreateError::RowTooWide));
}

#[test]
fn truth_values_in_the_heap_may_be_bits() {
    let make = |code: &str, bits: Option<BitColumns>| {
        let inner = InnerTypes {
            names: vec!["v".to_string()],
            codes: vec![Some(code.to_string())],
        };
        let fields = Some(vec![field("v", 'O', 8, vec![])]);
        let (cards, _) = normalize_and_build_table_header(
            &fields,
            0,
            None,
            None,
            &Some(inner),
            &bits,
            Descriptor::P,
        )
        .unwrap();
        text_of(&cards, "TFORM1").unwrap()
    };
    let named = || Some(BitColumns::Names(vec!["V".to_string()]));
    assert_eq!(make("?", None), "1PL");
    assert_eq!(make("?", named()), "1PX");
    assert_eq!(make("bool", named()), "1PX");
    assert_eq!(make("f4", named()), "1PE");
    // Bits for all columns are for truth values in the rows.
    assert_eq!(make("?", Some(BitColumns::All)), "1PL");
    assert_eq!(make("f4", Some(BitColumns::All)), "1PE");
}
