//! Conversion of fonts between the uncompressed table container and the
//! compressed web container.
//!
//! The library holds what is decided and computed around the stream codec:
//! how large an output buffer must be, what a container's header claims,
//! whether a font or a container is fit to be handed to the codec, and what
//! becomes of the codec's answer. A container is handed to the decoder only
//! where its header and its directory are whole. The library also reads and
//! writes table directories, joins and cuts table payloads, rebuilds a font
//! from its tables, and compresses and decompresses Brotli streams under a
//! hard cap.

pub mod base128;
pub mod container;
pub mod convert;
pub mod directory;
pub mod entries;
pub mod error;
pub mod font;
pub mod payload;
pub mod size;
pub mod stream;

pub use convert::{convert_ttf_to_woff2, convert_woff2_to_ttf, convert_woff2_to_ttf_within};
pub use error::ConversionError;
pub use size::{compute_woff2_final_size, final_decompressed_size, max_woff2_compressed_size};
pub use stream::{compress, decompress};
