//! Layout decisions of the Tali formatting mode: column alignment of
//! rectangular list and tuple literals, and horizontal alignment of
//! assignments, annotations and trailing comments.
//!
//! Source text is handled as UTF-8 bytes and offsets are `u32` byte
//! positions into it.
pub mod text;
pub mod width;
pub mod ast;
pub mod expr_list;
pub mod tali;

use vstd::prelude::*;

verus! {

} // verus!
