//! A command-line argument parser: options configured as flags, texts, integers,
//! counts, lists and aliases; `name=value` parameters; and operands.
pub mod arg_parser;
pub mod errors;
pub mod parser_config;
pub mod read_config;
pub mod strmap;
pub mod types;
pub mod utils;

pub use arg_parser::ArgParser;
pub use errors::ArgotError;
pub use parser_config::ParserConfig;
pub use strmap::StrMap;
pub use types::{ConfigEntries, ConfigEntry, LabeledEntry, OptionValue, ParseResult};
