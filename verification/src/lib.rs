//! Validated highlight spans over single-line text, the `{{name}}`
//! template-variable scanner, and the hover/click state of a highlighted
//! input, kept apart from the widget toolkit that draws it.
pub mod highlight;
pub mod model;
pub mod text;
pub mod variables;

pub use highlight::{validate_spans, HighlightSpan, HighlightSpanError};
pub use model::{HighlightHit, HighlightInputEvent, HighlightModel, HoverTarget};
