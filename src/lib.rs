//! Filter expressions over date-stamped key/value records: a small command
//! language, an infix expression parser built on the shunting-yard method,
//! and the rules that decide which records and entries stay visible.

pub mod text;
pub mod number;
pub mod data_containers;
pub mod filter;
pub mod filter_commands;
pub mod filter_expression;
pub mod command_parser;
pub mod expression_parser;
