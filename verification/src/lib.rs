pub mod alignment;
pub mod change;
pub mod context;
pub mod correspondence;
pub mod diff;
pub mod entry;
pub mod frontend;
pub mod grammar;
pub mod plan;
pub mod presentation;
pub mod review;
pub mod source;
pub mod span;
pub mod syntax;
pub mod text;
