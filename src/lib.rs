pub mod cache;
pub mod codec;
pub mod crawl;
pub mod datetime;
pub mod extract;
pub mod html;
pub mod models;
pub mod parser;
pub mod store;
pub mod text;
