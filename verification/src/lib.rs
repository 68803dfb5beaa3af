//! Week parity: which teaching week a date falls in, counted from a
//! semester start date, together with the small text formats around it.

pub mod text;
pub mod config;
pub mod date;
pub mod status;
pub mod theme;
pub mod markup;
