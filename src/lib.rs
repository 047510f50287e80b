//! Incremental synchronisation of iCalendar feeds into a directory of
//! one-event records: content-based event identity, the downstream-safe
//! transformation, textual post-processing and the dedup registry.

pub mod event;
pub mod ical;
pub mod identity;
pub mod pipeline;
pub mod registry;
pub mod render;
pub mod text;
pub mod transform;
