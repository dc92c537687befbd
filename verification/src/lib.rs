//! A verified codec for the Bencode data-interchange format: a recursive,
//! self-delimiting, byte-oriented encoding for integers, byte strings,
//! ordered lists, and sorted key/value maps.

pub mod decoder;
pub mod encoder;
pub mod laws;
pub mod model;
pub mod stream;
pub mod wire;

pub use decoder::iter_bdecode;
pub use encoder::bencode;
pub use model::Bencode;
pub use model::ParseError;
pub use stream::ByteStream;
