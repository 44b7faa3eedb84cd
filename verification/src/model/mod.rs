//! The document model: the node tree built from a JSON value, the rows
//! drawn from it, searching, and the document's editing operations.

pub mod tree;
pub mod document;
pub mod fill;
pub mod laws;

pub use self::tree::{
    Node, NodeView, PropertyRow, FlatTreeRow, FlatRow, AppTab, PathSet, SAMPLE_JSON,
    truncate_chars, flatten, type_color_by_name, filter_properties, property_limit_note,
    PROPERTY_DISPLAY_LIMIT,
};
pub use self::document::{DocumentModel, parent_button_label};
pub use self::fill::{TreeFill, FILL_CHUNK};
