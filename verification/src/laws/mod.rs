//! The laws of the operations: what each does to the language, proved of the
//! models.
pub mod complement;
pub mod complete;
pub mod concat;
pub mod kleene;
pub mod minimal;
pub mod numbering;
pub mod order;
pub mod repeat;
pub mod reverse;
pub mod star;
pub mod trim;
pub mod unite;
pub mod walks;
