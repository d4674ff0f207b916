//! Prefix scanners for the tokens of textual dates and times: numbers, fractional seconds,
//! month and weekday names, UTC offsets, white space and RFC 2822 comments. Each scanner reads
//! a prefix of its input and returns what is left with what it decoded, or why it failed.
pub mod error;
pub mod text;
pub mod number;
pub mod names;
pub mod offset;
pub mod comment;

pub use error::{ScanError, ScanResult};
pub use text::{char, consume_colon_maybe, equals, s_next, space, trim1};
pub use number::{nanosecond, nanosecond_fixed, number};
pub use names::{short_month0, short_or_long_month0, short_or_long_weekday, short_weekday, Weekday};
pub use offset::{
    timezone_name_skip, timezone_offset, timezone_offset_2822, timezone_offset_internal,
    timezone_offset_permissive, timezone_offset_zulu, Separator,
};
pub use comment::comment_2822;
