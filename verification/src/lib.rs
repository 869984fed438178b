pub mod date;
pub mod domain;
pub mod money;
pub mod text;
pub mod rules;
pub mod learning;
pub mod dates;
pub mod mapping;
pub mod decode;
pub mod transfers;
pub mod ai;
pub mod brands;
pub mod prompt;
pub mod grouping;
pub mod storage;
pub mod analytics;
pub mod commands;
pub mod fingerprint;
pub mod csv_statement;
