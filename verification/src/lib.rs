pub mod de;
pub mod error;
pub mod grammar;
pub mod laws;
pub mod ser;
pub mod value;

pub use de::decode;
pub use error::Error;
pub use ser::to_bytes;
pub use ser::to_string;
pub use ser::SeqSerializer;
pub use ser::Serializer;
pub use value::RespData;
pub use value::RespValue;
