pub mod json;
pub mod time;
pub mod error;
pub mod protocol;
pub mod algebra;
pub mod laws;
pub mod codec;
pub mod trim;
pub mod key;
pub mod query;

pub use error::NativeError;
pub use key::{CacheQuery, Interval, KeySide, Metric, ttl_secs};
pub use protocol::{
    CompressedFields, Day, Item, Items, KeenError, KeenResult, Payload, ResultType, StringOrI64,
    Timeframe,
};
pub use query::{answer, cache_payload, read_response};
pub use time::{Instant, parse_instant};
