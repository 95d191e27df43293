pub mod filter;
pub mod gitignore;
pub mod strutil;
pub mod walker;
