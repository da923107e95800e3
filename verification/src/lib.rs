//! A logger for interrupt handlers that never blocks: each priority level
//! writes to a ring buffer of its own, and the lowest priority drains them.
//!
//! [`Inner`] is the ring buffer, [`Funnel`] the table that leads from the
//! hardware's priority codes to the ring buffers, [`Logger`] the write end of
//! one ring buffer and [`Drain`] its read end.

pub mod codec;
pub mod config;
pub mod drain;
pub mod funnel;
pub mod inner;
pub mod logger;
pub mod nvic;
pub mod order;
pub mod ring;
pub mod table;

pub use config::{
    compile, lit2ux, ConfigError, Fault, Input, KeyValue, Literal, Plan, Width,
};
pub use drain::Drain;
pub use funnel::Funnel;
pub use inner::Inner;
pub use logger::{Logger, Registers};
pub use ring::WriteError;
