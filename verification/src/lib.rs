//! Archive file-name parsing, version ordering, archive grouping and the
//! selection state of the disambiguation prompt of the `caplike` tool.

pub mod grammar;
pub mod archive;
pub mod catalog;
pub mod version_order;
pub mod prompt;
pub mod cli;
pub mod install;
