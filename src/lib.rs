pub mod error;
pub mod text;
pub mod chunk;
pub mod chain;
pub mod magic_string;
pub mod utils;
pub mod locator;
pub mod mappings;
pub mod path;
pub mod sourcemap;
pub mod pattern;
pub mod indent;
pub mod regexp;
pub mod laws;

pub use error::{Error, FmsErrType};
pub use magic_string::{
    GenerateMapOptions, IndentExclusionRanges, IndentOptions, MagicString, MagicStringOptions, OverwriteOptions,
};
pub use mappings::MappingsFacade;
pub use path::get_relative_path;
pub use regexp::FmsRegex;
pub use sourcemap::{DecodedMap, SourceMap, encode_mappings};
pub use text::slice_string;
pub use utils::{guess_indent, normalize_range};
