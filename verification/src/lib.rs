//! Exact and approximate human-readable representations of byte sizes and
//! time durations.
//!
//! The core is a bidirectional text codec: `Size` and `Duration` render to
//! the largest unit that divides the value exactly, and parse the same
//! grammar back to the exact value. `FormatSize` and `FormatDuration`
//! produce lossy, one-fractional-digit display forms.

pub mod arith;
pub mod buffer;
pub mod duration;
pub mod duration_format;
pub mod format_duration;
pub mod size;
pub mod size_format;
pub mod text;

pub use self::duration::Duration;
pub use self::duration::DurationError;
pub use self::duration_format::FormatDuration;
pub use self::duration_format::FormattedDuration;
pub use self::size::Size;
pub use self::size::SizeError;
pub use self::size_format::FormatSize;
pub use self::size_format::FormattedSize;
