pub mod types;
pub mod ladder;
pub mod index;
pub mod order_book;
pub mod risk;
pub mod engine;
pub mod protocol;
pub mod spsc;
