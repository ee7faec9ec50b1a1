pub mod ast;
pub mod btree;
pub mod lexer;
pub mod parser;
pub mod text;
pub mod page;
pub mod row;
pub mod wal;
pub mod txn;
pub mod disk;
pub mod render;
pub mod executor;
pub mod rdb;
