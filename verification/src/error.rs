//! What can go wrong. An error names the column, the row or the argument that
//! it is about by its place, so that a caller with the names at hand can tell
//! the whole story.

use vstd::prelude::*;

verus! {

/// Why a header does not describe a binary table.
#[derive(Clone, Copy, PartialEq, Eq, Structural, Debug)]
pub enum HeaderError {
    /// TFIELDS is missing.
    MissingTfields,
    /// TFIELDS is negative.
    NegativeTfields { tfields: i64 },
    /// TFORMn is missing. Columns count from 1 here, as in the header.
    MissingTform { column: u64 },
    /// TFORMn holds no letter.
    NoTypeLetter { column: u64 },
    /// What stands before the letter of TFORMn is no number.
    RepeatNotInteger { column: u64 },
    /// Something stands behind the letter of a fixed-width TFORMn.
    TrailingModifier { column: u64 },
    /// A descriptor TFORMn names no element type.
    MissingInnerLetter { column: u64 },
    /// The element type of a descriptor TFORMn is not a letter.
    InnerNotLetter { column: u64, inner: char },
    /// Something other than a bracketed hint follows the element type.
    InvalidTrailer { column: u64 },
    /// A descriptor TFORMn with a repeat count other than 1.
    DescriptorRepeat { column: u64 },
    /// A descriptor of an element type that the format does not know.
    UnsupportedInner { column: u64, inner: char },
    /// TDIMn on a column of descriptors.
    DescriptorTdim { column: u64 },
    /// TFORMn with a type letter that the format does not know.
    UnsupportedLetter { column: u64, letter: char },
    /// TDIMn is not in round brackets.
    TdimNotParenthesized { column: u64 },
    /// A part of TDIMn is no number.
    TdimNotInteger { column: u64, part: usize },
    /// A part of TDIMn is zero.
    TdimZero { column: u64, part: usize },
    /// The product of TDIMn is not the repeat count.
    TdimProduct { column: u64, product: usize, repeat: usize },
    /// A width of this column, or the row up to it, is beyond `usize`.
    WidthOverflow { column: u64 },
    /// The widths of the columns do not add up to NAXIS1.
    RowWidth { width: usize, naxis1: i64 },
}

/// Why one cell has no value.
#[derive(Clone, Copy, PartialEq, Eq, Structural, Debug)]
pub enum CellError {
    /// A byte of a character cell is not ASCII.
    NonAsciiByte { byte: u8, position: usize },
    /// A character of a string is not ASCII.
    NonAsciiChar { codepoint: u32, position: usize },
    /// The bytes from the heap are not as many as the elements need.
    HeapLength { got: usize, expected: usize },
    /// A descriptor with a negative count or offset.
    NegativeDescriptor { nelements: i64, heap_offset: i64 },
    /// A descriptor of more bytes than `usize` counts, or at an offset beyond
    /// 64 bits.
    TooLarge { nelements: i64, heap_offset: i64 },
    /// A descriptor that points behind the heap.
    PastHeap { end: u64, heap: u64 },
}

/// Why a selection of rows is none.
#[derive(Clone, Copy, PartialEq, Eq, Structural, Debug)]
pub enum RowError {
    /// A slice with the step 0.
    ZeroStep,
    /// A row that the table does not have.
    OutOfRange { index: i64, nrows: usize },
    /// The selection holds no row.
    NoRows,
    /// Rows are to be handed out in groups of none.
    ZeroChunk,
}

/// Why a request for columns cannot be met. `at` is the place in the request,
/// or among the columns that it selects.
#[derive(Clone, Copy, PartialEq, Eq, Structural, Debug)]
pub enum ColumnError {
    /// The request names no column.
    EmptyRequest,
    /// A name that an earlier one of the request repeats.
    DuplicateName { at: usize },
    /// A name that the table does not have.
    UnknownName { at: usize },
    /// Nulls are to be masked in a column whose cells are in the heap.
    VariableNull { at: usize },
    /// TSCAL or TZERO on complex numbers.
    ScaledComplex { at: usize },
    /// Raw bytes are asked of a column that holds no characters.
    NotCharacters { letter: char },
}

/// Why a table cannot be read as asked.
#[derive(Clone, Copy, PartialEq, Eq, Structural, Debug)]
pub enum ReadError {
    Columns(ColumnError),
    Rows(RowError),
    /// A cell has no value: the place of its column in the selection, the row
    /// of the table and the reason.
    Cell { column: usize, row: usize, error: CellError },
}

/// Why an array type has no column type.
#[derive(Clone, Copy, PartialEq, Eq, Structural, Debug)]
pub enum DtypeError {
    /// Bits are asked of something other than truth values.
    BitsNeedBool,
    /// Strings of no characters.
    ZeroLengthString,
    /// The format has no signed bytes.
    Int8,
    /// The format has no 16-bit floats.
    Float16,
    /// No type of the format fits.
    Unsupported,
    /// Objects in the shape of an array.
    ObjectShape,
    /// Objects, and nobody says of what their cells are made.
    NoInnerTypes,
    /// Objects, and what their cells are made of is not among what is said.
    MissingInnerType,
    /// What the cells are made of is no text.
    InnerTypeNotText,
    /// What the cells are made of is no type of the format.
    UnsupportedInner,
    /// A size that `usize` does not hold.
    TooLarge,
}

/// Why no table can be made of array types.
#[derive(Clone, Copy, PartialEq, Eq, Structural, Debug)]
pub enum CreateError {
    /// The array has no named fields.
    NotStructured,
    /// The array has no fields.
    NoFields,
    /// The field at a place has no column type.
    Field { at: usize, error: DtypeError },
    /// The entry at a place of the inner types names no field.
    UnknownInnerType { at: usize },
    /// The entry at a place of the bit columns names no field.
    UnknownBitColumn { at: usize },
    /// The row is wider than a header can say.
    RowTooWide,
}

/// Why an array cannot be written into a column.
#[derive(Clone, Copy, PartialEq, Eq, Structural, Debug)]
pub enum TransformError {
    /// The column takes strings of so many characters.
    NeedsStrings { chars: usize },
    /// The column takes truth values as bits.
    NeedsBits { bits: usize },
    /// The column takes truth values.
    NeedsBool,
    /// The column takes unsigned integers of so many bytes.
    NeedsUnsigned { size: usize },
    /// The column is scaled in a way that cannot be undone on writing.
    Scaled,
    /// The column takes elements of another kind or size.
    NeedsKind { kind: char, size: usize },
}

/// Why an array cannot be the source of a column.
#[derive(Clone, Copy, PartialEq, Eq, Structural, Debug)]
pub enum InputError {
    /// It is no array.
    NotArray,
    /// Its first axis is not one of rows.
    FirstAxis,
    /// Its cells have another shape than those of the column.
    CellShape,
    /// Its elements do not go into the column.
    Transform(TransformError),
    /// Its elements do not follow each other in memory.
    NotContiguous,
    /// A size that `usize` does not hold.
    TooLarge,
    /// It has fewer bytes than its shape needs.
    ShortBuffer { got: usize, expected: usize },
}

/// Why something cannot be a cell in the heap.
#[derive(Clone, Copy, PartialEq, Eq, Structural, Debug)]
pub enum VarError {
    /// It is neither a text nor bytes.
    NotString,
    /// A byte of the text is not ASCII.
    NonAsciiByte { byte: u8, position: usize },
    /// It is no array.
    NotArray,
    /// It is an array of other than one axis.
    NotOneAxis,
    /// It is an array of other elements than the column takes.
    NeedsKind { kind: char, size: usize },
    /// Its elements do not follow each other in memory.
    NotContiguous,
}

/// Why what is given cannot be written into the table. Places count from 0:
/// `column` in the table, `at` in what is given.
#[derive(Clone, Copy, PartialEq, Eq, Structural, Debug)]
pub enum WriteError {
    /// Names come with a dictionary, which has its own.
    NamesWithDict,
    /// Arrays come in a list, and their names do not come.
    NamesMissing,
    /// Names come with an array of records, which has its own.
    NamesWithArray,
    /// The names are no texts.
    NamesNotTexts,
    /// What is given is neither of records nor of columns.
    NotTableData,
    /// The dictionary or the list is empty.
    EmptyData,
    /// A key of the dictionary is no text.
    KeyNotText { at: usize },
    /// A name that the table does not have.
    ExtraName { at: usize },
    /// A name that an earlier one repeats.
    DuplicateName { at: usize },
    /// A column of the table that nothing is given for.
    MissingColumn { column: usize },
    /// There are not as many names as arrays.
    NameCount { arrays: usize, names: usize },
    /// The array of records has no named fields.
    NotStructured,
    /// The array of records has not as many fields as the table has columns.
    ColumnCount { got: usize, want: usize },
    /// There are not as many rows as there should be.
    RowCount { got: usize, want: usize },
    /// Not as many rows are given for a column as there should be.
    ColumnRows { column: usize, got: usize, want: usize },
    /// The records do not follow each other in memory.
    NotContiguous,
    /// A size that does not fit the machine.
    TooLarge,
    /// The array of records has fewer bytes than it needs.
    ShortBuffer { got: usize, expected: usize },
    /// What is given for a column does not go into it.
    Column { column: usize, error: InputError },
    /// A cell for the heap is not what its column takes.
    HeapCell { column: usize, row: usize, heap: VarError },
    /// The heap would be larger than `usize` counts.
    HeapTooLarge,
    /// A value does not go into its cell.
    Cell { column: usize, row: usize, cell: CellError },
}

/// Why a key selects nothing.
#[derive(Clone, Copy, PartialEq, Eq, Structural, Debug)]
pub enum KeyError {
    /// Bytes that name a column are not ASCII.
    NonAsciiName,
    /// It is nothing that could select.
    NotKey,
    /// It is a sequence of nothing.
    EmptySequence,
    /// Among names there is something else.
    MixedNames,
    /// Among numbers of rows there is a truth value.
    BoolRow,
    /// Among numbers of rows there is something else.
    MixedRows,
    /// It is a sequence neither of names nor of numbers.
    NeitherRowsNorColumns,
    /// It is a pair, but not of a row and the name of a column.
    PairNotCell,
    /// It is nothing that could select rows.
    NotRows,
    /// A row is not one of the table.
    Row(RowError),
}

/// Why a part of a table cannot be overwritten.
#[derive(Clone, Copy, PartialEq, Eq, Structural, Debug)]
pub enum AssignError {
    /// A row is not one of the table.
    Row { row: RowError },
    /// What is given for a row is no record.
    NotRecord,
    /// What is given for a row has no named fields.
    RecordNotStructured,
    /// What is given for a row is more or less than one record.
    NotOneRecord,
    /// The step of a slice of rows is not positive.
    Step,
    /// What is given is no array.
    NotArray,
    /// What is given has no length.
    NotSized,
    /// No rows are selected, but something is given for them.
    NoRows { got: usize },
    /// Something is given for more or fewer rows than are selected.
    Length { got: usize, want: usize },
    /// No columns are selected.
    EmptyNames,
    /// What is given has no named fields.
    NotStructured,
    /// A name that an earlier one repeats.
    DuplicateName { at: usize },
    /// A name that no column has.
    UnknownName { at: usize },
    /// A name for which nothing is given.
    MissingField { at: usize },
    /// A column that the table does not have.
    UnknownColumn,
    /// What is given for a column is not in one axis of as many as the table
    /// has rows.
    Axis { nrows: usize },
    /// What is given for a column with cells in the heap are no objects.
    NotObjects { kind: char },
    /// What is given does not go into the table.
    Write { write: WriteError },
    /// What is given does not go into its column.
    Input { input: InputError },
    /// What is given does not go into its cell.
    Cell { cell: CellError },
    /// What is given is no cell for the heap.
    Heap { heap: VarError },
    /// A size that does not fit the machine.
    TooLarge,
}

/// Why a table cannot be edited in place. Places count from 0.
#[derive(Clone, Copy, PartialEq, Eq, Structural, Debug)]
pub enum EditError {
    /// The heap does not stand right behind the rows.
    CustomHeap { theap: i64, main: u64 },
    /// A descriptor is not that of a cell in the heap.
    Cell { column: usize, row: usize, cell: CellError },
    /// A value for a new column does not go into its cell; the row counts from
    /// the start of its strip.
    NewCell { row: usize, cell: CellError },
    /// More than one place is asked for.
    TwoTargets,
    /// A place that the table does not have.
    Position { position: i64, columns: usize },
    /// A name that no column has.
    UnknownColumn,
    /// A column that the table does not have.
    ColumnIndex { index: i64, columns: usize },
    /// What should name a column is neither a text nor a number.
    NotColumnKey,
    /// The new column has no name.
    EmptyName,
    /// A column has the name of the new one.
    NameTaken { column: usize },
    /// What the cells are made of is said of a column of no objects.
    InnerWithoutObjects,
    /// A form of descriptors is asked of a column of no objects.
    FormatWithoutObjects,
    /// Nobody says what the cells of a column of objects are made of.
    InnerMissing,
    /// Descriptors have no such form.
    NoSuchFormat,
    /// The values of a new column have no axis of rows.
    NoRowAxis,
    /// The values of a new column have no column type.
    Dtype { error: DtypeError },
    /// The values of a new column do not go into it.
    Input { input: InputError },
    /// Objects are not in one axis of as many as the table has rows.
    ObjectAxis { nrows: usize },
    /// Objects cannot be the cells of a new column.
    Objects { write: WriteError },
    /// The table has no columns.
    NoColumns,
    /// No card ends the header.
    MissingEnd,
    /// A card that the header must have is missing.
    MissingKeyword,
    /// A size that does not fit the machine.
    TooLarge,
}

} // verus!
