//! Frozen, mmap-friendly roaring bitmaps.
//!
//! A frozen bitmap is a roaring bitmap serialized into a compact, aligned byte buffer that
//! is queried directly from its bytes, with no deserialization.
//!
//! Op producers come in two intents: `_fast` results are op-ready, for query pipelines, and
//! `_compact` results are in the smallest form, for persistence. The builder and trees always
//! finish in the smallest form, so what is stored is a function of the values alone.
//!
//! Only one thing can fail: validating untrusted bytes, which returns `Option`
//! ([`FrozenBitmapView::from_bytes`], [`FrozenBitmap::from_bytes`]). Values fed to the builder
//! must ascend ([`FrozenBitmapBuilder::push`]). Everything else (set ops,
//! [`BitmapExpr::materialize`] and all queries on a valid bitmap) is infallible.
//!
//! The bytes are modelled in [`frozen`], the sets they stand for in [`model`]. Every function
//! is specified by what it does to those sets.

pub mod accum;
pub mod arena;
pub mod arrays;
pub mod audit;
pub mod bitmap;
pub mod buffer;
pub mod builder;
pub mod canon;
pub mod container;
pub mod convert;
pub mod corpus;
pub mod cursor;
pub mod decide;
pub mod depth;
pub mod difference;
pub mod encode;
pub mod engines;
pub mod exec;
pub mod expr;
pub mod fold;
pub mod form_laws;
pub mod format;
pub mod frozen;
pub mod intersect;
pub mod iter;
pub mod keymask;
pub mod laws;
pub mod machine;
pub mod memory;
pub mod model;
pub mod plan;
pub mod pool;
pub mod pool_laws;
pub mod run;
pub mod shape;
pub mod source;
pub mod stored_laws;
pub mod tree_laws;
pub mod treegen;
pub mod trials;
pub mod union;
pub mod usage;
pub mod view;
pub mod walk;
pub mod wire_laws;
pub mod words;
pub mod workload;
pub mod workload_laws;

pub use crate::bitmap::FrozenBitmap;
pub use crate::builder::FrozenBitmapBuilder;
pub use crate::difference::diff as difference_fast;
pub use crate::difference::diff_compact as difference_compact;
pub use crate::expr::BitmapExpr;
pub use crate::intersect::intersect as intersect_fast;
pub use crate::intersect::intersect_compact;
pub use crate::iter::Iter;
pub use crate::union::union as union_fast;
pub use crate::union::union_compact;
pub use crate::view::FrozenBitmapView;
