pub mod decimal;
pub mod escape;
pub mod laws;
pub mod sizefmt;
pub mod store;
pub mod wordlist;
mod text;
