//! Structured diagnostics: locations, codes, severities, and their rendering.
pub mod diagnostic;
pub mod emitter;
pub mod error_code;
pub mod severity;
pub mod span;

pub use diagnostic::{Diagnostic, Label};
pub use emitter::render_report;
pub use error_code::ErrorCode;
pub use severity::Severity;
pub use span::{SourceLocation, Span};
