//! Driver core for the RTC-7301DG real-time clock on a 4-bit parallel bus.
//!
//! The chip is reached over twelve lines: two chip selects, a read and a
//! write strobe, four address lines and four data lines. The driver knows
//! the protocol on those lines, and nothing of the hardware behind them: it
//! says which line to drive, which to sample and how long to wait, and is
//! told what the samples showed.
//!
//! - [`bus`]: the lines, the steps taken on them, and the levels that a
//!   sequence of steps leaves.
//! - [`protocol`]: the sequence of steps of each operation, and what it does
//!   to the lines.
//! - [`rtc7301dg`]: the driver itself.
//! - [`run`]: what comes of each operation when its steps are carried out
//!   against a chip.

pub mod bus;
pub mod protocol;
pub mod rtc7301dg;
pub mod run;
