//! A cursor type for string slices.
//!
//! The cursor can be seeked back and forth through a string, one Unicode code
//! point or one extended grapheme cluster at a time, without ever producing an
//! invalid UTF-8 slice or splitting a grapheme cluster.  In addition, the
//! crate provides types representing a single grapheme cluster ([`Gc`] and
//! [`GcBuf`]) as distinct from arbitrary string slices.

pub mod cursor;
pub mod grapheme;
pub mod iter;
pub mod util;

pub use cursor::StrCursor;
pub use grapheme::Gc;
pub use grapheme::GcBuf;
