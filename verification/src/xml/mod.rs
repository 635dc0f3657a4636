//! XML as far as an office document needs it.
//!
//! A part is cut into pieces, each a range of its bytes, so that putting the
//! pieces side by side gives the part back. The reader checks that tags match,
//! resolves namespaces and keeps the quotas. Entities and line ends are read only
//! where a value is asked for; what is read is never written back.
pub mod entity;
pub mod escape;
pub mod form_laws;
pub mod laws;
pub mod lexer;
pub mod name;
pub mod read_laws;
pub mod reader;
