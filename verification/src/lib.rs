//! A linked editing ranges engine: maintains a per-buffer index of linked
//! text-span groups (for example, the opening and closing tag name of an
//! HTML-like element), answers point-containment lookups over it, and
//! recomputes it from externally supplied span lists through a cancellable,
//! rename-aware refresh cycle.

pub mod anchors;
pub mod groups;
pub mod index;
pub mod laws;
pub mod order;
pub mod pipeline;
