pub mod bucket;
pub mod clock;
pub mod keymap;
pub mod rate_limiter;

pub use crate::bucket::Bucket;
pub use crate::rate_limiter::AtomicRateLimiter;
pub use crate::rate_limiter::RateLimiter;
