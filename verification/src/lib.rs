//! The logic of quotaline, a status line for account-wide usage limits.
pub mod bars;
pub mod big;
pub mod burn;
pub mod cli;
pub mod day;
pub mod decimals;
pub mod double;
pub mod exact;
pub mod fmt;
pub mod forecast;
pub mod history;
pub mod json;
pub mod keeping;
pub mod localtime;
pub mod log;
pub mod memory;
pub mod num;
pub mod rates;
pub mod report;
pub mod reporting;
pub mod screen;
pub mod series;
pub mod settings;
pub mod spend;
pub mod spending;
pub mod statusline;
pub mod text;
