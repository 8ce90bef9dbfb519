pub mod db;
pub mod value;
