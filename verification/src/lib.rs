//! Binary tables of the FITS format: column metadata, cell encodings, row
//! selection, heap layout and in-place edits, as functions on plain values.

pub mod assign;
pub mod bytes;
pub mod cards;
pub mod cells;
pub mod codes;
pub mod columns;
pub mod create;
pub mod edit;
pub mod encode;
pub mod error;
pub mod fields;
pub mod frames;
pub mod given;
pub mod header;
pub mod headtrip;
pub mod heap;
pub mod heapoutcomes;
pub mod heaps;
pub mod heaptrip;
pub mod heapwrite;
pub mod input;
pub mod iter;
pub mod keys;
pub mod keywords;
pub mod layout;
pub mod made;
pub mod masks;
pub mod numbering;
pub mod outcomes;
pub mod plans;
pub mod read;
pub mod refusals;
pub mod repack;
pub mod repr;
pub mod reshape;
pub mod roundtrip;
pub mod rows;
pub mod runs;
pub mod selected;
pub mod shuffle;
pub mod stored;
pub mod strips;
pub mod table;
pub mod text;
pub mod types;
pub mod undo;
pub mod values;
pub mod vla;
