pub mod array_stack;
pub mod list_stack;
