//! Verified core of a spiral countdown display: the schedule of recurring
//! interval markers, the merged stream of clock ticks drawn on the spiral,
//! and the parsing of `title @ timestamp` event arguments.

pub mod args;
pub mod event;
pub mod schedule;
pub mod spiral_app;
pub mod ticks;
pub mod time;

pub use self::args::{split_event_arg, ArgError};
pub use self::event::{Event, IntervalMarker};
pub use self::schedule::Schedule;
pub use self::spiral_app::SpiralApp;
pub use self::ticks::{Tick, TickInterval, Ticks};
pub use self::time::{SpanUnit, TimeError, UnitSpan};
