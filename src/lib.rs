pub mod text;
pub mod url;
pub mod frontier;
pub mod export;
pub mod http;
pub mod parser;
pub mod worker;
