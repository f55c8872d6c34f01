//! Confix: a lenient byte-span document index for JSON, canonical CBOR and YAML,
//! with the `Item` metamodel, its canonical CBOR codec, a SAX/JAX view of an
//! index and a typedef IS-A lattice.
pub mod cbor_cursor;
pub mod confix;
pub mod item;
pub mod json_cursor;
pub mod saxjax;
pub mod text;
pub mod typedef_oracle;

pub use crate::confix::{
    confix_doc, confix_doc_text, content_id, scan, ConfixDoc, ConfixIndex, FlatIndex, IoMemento,
    PathStep, RowVec, Scan0Result, Syntax, TreeCursor, Value,
};
