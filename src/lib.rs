pub mod id;
pub mod merge;
pub mod style;
pub mod model;
pub mod spans;
pub mod text;
pub mod laws;
pub mod actor;
pub mod scene;

pub use actor::{Actor, Formattable, Formatting};
pub use id::Id;
pub use model::{IndexType, RichTextError, Span};
pub use scene::{Author, CoordinateSystem, Handedness, Icon, Tab, UpDirection};
pub use style::{Behavior, Expand, Style, StyleValue};
pub use text::RichText;
