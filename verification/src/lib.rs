//! HDR histograms: values are counted in slots whose width keeps a chosen number of significant
//! decimal digits, from a lowest discernible value up to a highest trackable one; histograms can
//! be written to and read back from the compact V2 binary encoding.

pub mod bucketing;
pub mod counter;
pub mod cursor;
pub mod histogram;
pub mod serialization;
pub mod varint;

pub use counter::Counter;
pub use cursor::{ByteCursor, ReadError};
pub use histogram::{CreationError, Histogram, RecordError};
pub use serialization::{
    assert_deserialized_histogram_matches_orig, deserialized_histogram_matches, encode_counts,
    v2_payload_len, DeserializeError, Deserializer, SerializeError, V2Serializer, V2_COOKIE,
    V2_HEADER_SIZE,
};
pub use varint::{varint_read, varint_write, zig_zag_decode, zig_zag_encode};
