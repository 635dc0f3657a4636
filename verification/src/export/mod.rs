//! Workbooks as pages of HTML.
pub mod grid;
pub mod html;
pub mod laws;
pub mod model;
pub mod page_laws;
pub mod style;
pub mod style_laws;
pub mod table_laws;
