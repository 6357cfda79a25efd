//! An archive of structured tracing events, and a directive language that filters them.
pub mod syntax;
pub mod lazy;
pub mod eager;
pub mod archive;
pub mod filter;
pub mod widget;

pub use crate::syntax::ParseError;
pub use crate::lazy::{filters, Filters, Filter, SpanFilters, SpanFilter, FieldFilters, FieldFilter};
pub use crate::archive::{Archive, Event, Field, Level, Meta, Span};
pub use crate::widget::Widget;
