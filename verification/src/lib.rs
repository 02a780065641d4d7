//! A position-addressed ordered container: values placed along an integer
//! coordinate axis, where each value's absolute position is the cumulative
//! sum of per-entry spacings rather than a stored coordinate.  Insertions at
//! a position split an existing gap, removals fold the vacated gap forward,
//! and inflate/deflate operations widen or narrow the gap covering a
//! position, shifting every later entry at once.  A paired-bound variant
//! represents half-open ranges as a cross-referenced pair of entries.

mod storage;
mod spaced;
mod ranged;

pub use spaced::Entry;
pub use spaced::LinkedSpacedList;
pub use ranged::Bound;
pub use ranged::LinkedRangeSpacedList;
