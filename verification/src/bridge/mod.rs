//! Blocks of bytes in which sheets and styles are handed to a page that draws
//! them.
//!
//! One block holds a whole sheet: handing out cell by cell would cost more than
//! the work itself. All numbers have their low byte first.
pub mod block_laws;
pub mod entry;
pub mod handle;
pub mod sheet;
pub mod styles;
