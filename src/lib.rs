//! Reading and writing of Wavefront `.obj` geometry and `.mtl` material libraries.
//!
//! The readers are specified as folds of a per-line step over the text's lines; the writers
//! by the exact text that they append. Numbers are kept as the text that wrote them.
//! `roundtrip`, `parsed` and `mtl_roundtrip` prove that what is written reads back as it was;
//! `laws` holds the other properties that relate several calls.

pub mod laws;
pub mod message;
pub mod mtl;
pub mod mtl_roundtrip;
pub mod obj;
pub mod parsed;
pub mod polygon;
pub mod resolve;
pub mod roundtrip;
pub mod text;
pub mod write;

pub use mtl::{Material, Mtl, MtlError, MtlMissingType, Parser};
pub use obj::{
    normalize, Group, IndexTuple, LoadConfig, MtlLibsLoadError, ObjData, ObjError, ObjMaterial,
    Object, SimplePolygon,
};
pub use resolve::Obj;
pub use text::{words, FloatLit};
pub use write::WriteToBuf;
