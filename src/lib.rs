//! Reader for MDX/MDD dictionary files: a verified parser for every section of
//! the container and a lookup engine over the decoded key index.
use vstd::prelude::*;

pub mod bytes;
pub mod codec;
pub mod dict;
pub mod error;
pub mod header;
pub mod index;
pub mod keys;
pub mod loader;
pub mod lookup;
pub mod mdx;
pub mod text;

pub use crate::dict::{MDictBuilder, WordDefinition};
pub use crate::error::{Error, Result};
pub use crate::keys::KeyMaker;
pub use crate::mdx::Mdx;
