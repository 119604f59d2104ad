//! What the language server decides, apart from the protocol it speaks: where a byte
//! offset sits for an editor, and when an edited document gets checked.

pub mod analysis;
pub mod debounce;
pub mod position;
