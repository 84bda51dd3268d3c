pub mod action;
pub mod api;
pub mod simpledb;
pub mod versions;
