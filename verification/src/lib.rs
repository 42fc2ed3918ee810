//! A verified word-guessing game played over a multiplexed byte-stream
//! transport: the authoritative engine that owns the secret word, the
//! peer-side mirror that reconstructs display state from responses, the
//! fixed-layout wire codec, and the session state machines that drive
//! one game per connection on each side.

pub mod codec;
pub mod engine;
pub mod mirror;
pub mod session;
