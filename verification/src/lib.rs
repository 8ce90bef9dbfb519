pub mod command;
pub mod connection;
pub mod dispatch;
pub mod resp;
pub mod store;
pub mod text;
