pub mod cache;
pub mod memo;
