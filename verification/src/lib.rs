//! Structured keys encoded as `/`-separated, percent-escaped strings.

pub mod builder;
pub mod codec;
pub mod dir_name;
pub mod error;
pub mod helper;
pub mod key_builder;
pub mod key_codec;
pub mod naming;
pub mod parser;
pub mod raw;
pub mod segments;
pub mod struct_key;

pub use builder::Builder;
pub use codec::Codec;
pub use dir_name::DirName;
pub use error::Error;
pub use error::KeyError;
pub use key_builder::KeyBuilder;
pub use key_codec::KeyCodec;
pub use parser::KeyParser;
pub use parser::Parser;
pub use raw::Raw;
pub use struct_key::StructKey;
