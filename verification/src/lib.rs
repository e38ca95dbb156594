//! Random-access reading of BGZF data: a sequence of independently
//! compressed blocks that together stand for one logical byte stream.

pub mod block;
pub mod cache;
pub mod error;
pub mod index;
pub mod index_proofs;
pub mod inflate;
pub mod laws;
pub mod reader;
pub mod reader_proofs;
pub mod source;
pub mod stream;
pub mod window;

pub use block::{read_block, BgzfBlock};
pub use error::{BGZFError, Error, ErrorKind};
pub use index::{BlockIndex, IndexEntry};
pub use reader::{BgzfReader, ReadOutcome};
